# mvn_core

Maven dependency resolution as a verified library: coordinates, versions and version ranges,
POM inheritance and interpolation, dependency management and BOM imports, the collection and
flattening of dependency trees, settings, repositories, checksums and metadata.

- `src/` is the library. Every function in it states what it returns or changes, or which documents
  it has to wait for, and Verus proves it.
  - `text` – characters, trimming, splitting, searching
  - `coord`, `version`, `metadata`, `settings`, `repository`, `error` – the data and their rules
  - `properties`, `pom`, `xml` – POMs, their placeholders and their inheritance
  - `known`, `effective`, `collect`, `resolver`, `tree` – effective POMs, dependency trees, the
    list they come to, and their display
  - `checksum`, `downloader`, `uploader`, `timestamp` – the decisions of transfers
  - `cli` – what the command line takes and shows
  - `laws` – what holds across functions: round trips, orders, priorities, bounds
- `tests/` runs the library on concrete values.
- `app/` is the program around it: XML, files, HTTP and the command line. It fetches the documents
  that the library asks for and hands them back until the tree is complete.

What the library takes from other crates without proof stands in a few functions whose comments
name it: the digests of `sha1` and `sha2`, the notation of `hex`, the styles of `colored`, the home
directory of `dirs`, the system clock, and `String::push`.
