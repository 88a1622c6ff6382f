# octomap

A 3D occupancy-mapping library in Verus, with a ROS 2 mapping node around it.

`src/` is the verified library: voxel keys and the key-space geometry, the
generic octree (insert, search, delete, prune, expand, iteration, the
descent an occupancy update makes, inner-node refresh), the `.bt` / `.ot`
map-file codecs and message payloads as functions on bytes, `PointCloud2`
layout decoding, the bookkeeping of scan filtering and scan integration,
and the transform frame graph. Every function there carries a contract
that Verus proves; the laws of the library (round trips of the codecs,
lookups after updates, idempotent snapping, reversed frame lookups) are
proof functions beside the code they speak of.

`app/` is the program: the floating-point layers (world coordinates, the
log-odds sensor model, ray traversal, rigid transforms, marker colors) and
the ROS 2 node that subscribes to clouds and `/tf`, integrates scans and
publishes maps. It calls the library for every decision that needs no
floating point.

`tests/` exercises the library on concrete values.
