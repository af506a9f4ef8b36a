# zipring

A web server that serves the files of a ZIP archive over HTTP, without unpacking it.

- Files go out as they stand in the archive where the client accepts that (deflated data as gzip,
  Zstandard data as it is), and decoded where it does not.
- A directory with an `index.html` shows that file; any other shows a listing.
- Entity tags are made of the checksums in the archive.

`src/` is the library: everything that decides what is read and what is sent. It is written in
[Verus](https://github.com/verus-lang/verus), and each function is proved to meet its contract,
except the calls into other crates in `outside`, whose contracts are taken for granted.

| Modules | |
| --- | --- |
| `bytes`, `encoding` | byte strings; hexadecimal, decimal, percent-encoded and HTML forms |
| `path`, `tree`, `order` | the model of a file tree: paths, lookups, insertions, sorting |
| `entry`, `reading` | archive entries, and reading them from the directory of an archive |
| `fstree`, `archive` | the tree itself, and the tree of an archive |
| `http`, `request` | from the bytes of a message to a request |
| `status`, `stream`, `listing`, `transfer`, `zip` | the parts of a response |
| `response`, `connection`, `settings` | answering a request, and what surrounds that |
| `outside` | calls into other crates, with their contracts |
| `*_laws` | what holds of these parts together |

`app/` is the program around it: the io_uring runtime, the sockets and the file.
It listens on `http://127.0.0.1:50002` unless `PORT` says otherwise.

```
zipring ZIPFILE
```
