# blob-wrangler

Extracts firmware blobs from the partitions of Android-derived devices into a
place where the kernel finds them.

* `src/` is the library, verified with Verus. It checks configurations, decides
  which partition stands for a name and where each item lands, lays out MBN
  images, and runs an extraction as a session: it says what is to be done and
  takes in what came of it.
* `app/` is the program around it: options, configuration texts, files, mounts and
  services.
* `tests/` runs the library.

The laws of the library are public proof functions beside what they speak of;
those on whole runs are in `src/ledger.rs`.
