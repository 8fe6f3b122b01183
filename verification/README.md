# typm

typm manages Typst packages that come from Git repositories and local directories. A project lists
its direct dependencies in `typm.toml`; typm finds what these depend on, pins the Git sources in a
lockfile, and makes links through which Typst imports the packages.

The library in `src/` decides; it is written in Verus, and what its functions return is stated in
their contracts and proved. The program in `app/` reads, fetches and writes, and asks the library
what to do.

- `text`, `path`, `raw`, `ordered`, `lists`, `link_path`: texts, paths, names that need not be text,
  and ordered maps
- `context`, `shell`, `commands`, `completions`: one run of the program
- `manifest`, `package`, `lockfile`: the files of a project and of a package
- `git`: Git sources, the steps by which they are brought into the cache, nested repositories, and
  how they are fetched
- `sources`, `resolver`, `graph`: where packages come from, the walk over what they depend on, and
  under which paths they are imported
- `stubs`: the views through which a package is imported under another version
- `project`, `transaction`, `files`: the links of a project, and how they are changed or left as
  they were
- `ops`: adding, removing, syncing and updating

What the library asks of other crates stands behind functions marked `external_body`. Each says in
its doc comment which function it calls and what is taken to hold of it.
