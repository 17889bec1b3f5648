# mega-dl

A downloader for MEGA links. It takes a link to a file or a folder, asks the server for what the
link leads to, decrypts names and keys, and downloads the contents in chunks over many public
proxies at once. A download that was broken off goes on where it was.

    mega-dl <mega-link>

Without an argument the link is read from `../link.txt`.

## Layout

- `src/` is the library, verified with Verus: everything that is decided or computed.
  - `link`: what a link says.
  - `crypto`, `content`, `base64url`: keys, attributes and file contents.
  - `api`, `json`: requests to the server and what its replies say.
  - `tree`: the files of a folder and where they go; `path`: Unix paths as texts.
  - `chunk`, `resume`: files in chunks, and the progress that is kept between two runs.
  - `download`, `folder`: the rounds of a download, of one file and of a folder.
  - `proxy`, `worker`: which proxies are tried, kept and given up.
  - `limits`: how many files may be open.
  - `text`: the string functions that the rest is made of.
- `app/` is the program around it: the network, the file system, tasks and progress bars.
- `tests/` runs the library.

Functions whose names begin with `law_` state what holds of several functions together, such as
that the chunks of a file, decrypted each on its own, make up the decrypted file.

The library calls `aes`, `cbc`, `ctr`, `base64`, `serde_json` and `rand`. What is believed of each
call stands in the doc comment of the function that makes it.
