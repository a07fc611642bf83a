# hnsw

Approximate nearest neighbour search over a hierarchy of small world graphs, verified with Verus.

An index is a stack of layers over one list of elements. Each layer is a graph on a prefix of the
elements, with at most 32 links from each node. A search walks greedily from layer to layer, and
the best node of one layer is where the walk through the next one begins.

* `src/` is the library. It builds, extends, searches, stores and loads indexes. Every function has
  a contract, and the contracts say exactly which graphs and which results come out.
* `tests/` runs the library on concrete indexes.
* `app/` is what surrounds it: distances as floating point numbers, files, and insertion with many
  threads behind locks, driven by the step by step walk of the library.

Distances are held in the library as the bits of single precision numbers, and ordered as those.
What is stored begins with words as long as those of the machine, followed by records of 132 bytes,
with all numbers in the byte order of the machine.

Candidates at equal distances are ordered by their indices. The library inserts one element after
the other, so it builds the same index whenever it is given the same elements.
