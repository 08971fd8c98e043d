# virtio

Split virtqueues for VIRTIO drivers, verified with Verus.

A driver hands buffers to a device through a virtqueue: a table of descriptors, a ring of requests
that are available to the device, and a ring of requests that the device has used. All three lie in
memory that the device can write at any time.

## Layout

- `hal` is what a platform must provide, and the log of what was done on it.
- `utils`, `ring`, `layout`, `buffer` and `error` are the parts of a queue.
- `model` says what a queue is and what its operations do to it; `split` implements that.
- `virtqueue` is a queue that stops when the device misbehaves. `queue` is one that goes on, on
  tables that its owner provides.
- `intact`, `account`, `view` and `laws` state what holds over all operations: which descriptors
  belong to which request, who owns which memory and which tokens, what the device finds in
  memory, and what a driver can rely on. `history` states what holds over any run of calls.
- `notify` is the way to tell the device of new requests, and the record of what it was told.
- `transport`, `driver`, `device`, `dma`, `errno`, `barrier` and `hwrng` are the decisions on the
  way from a kernel to a queue.
- `app/` is the part that talks to the kernel.

## What the contracts say

A contract gives the state after a call, the operations performed on the platform, in order, and
the result. The operations are those in the log of the platform: an entry is made by the operation
of `Allocator` or `Hal` that it stands for, and in no other way. Where the platform or the device
decides, the contract holds for whatever they answer, and the log says what it was. Memory is
accessed only while it is allocated, inside its bounds and aligned, and is given back once.

The traits of `hal` are for a platform to implement. What they promise is taken for granted, as far
as the implementation is not verified itself.
