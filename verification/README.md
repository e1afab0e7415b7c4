# netiso-srv

A NetISO server for the Xbox 360: it offers the disc images of a directory to
modded consoles over the network. Images may be stored as they are (`.iso`),
alone in a ZArchive (`.ziso`), or as a CHD (`.chd`); compressed ones are
decompressed while they are read. It also converts images between these formats.

    netiso-srv [-r] [-v] <directory>    serve the images in a directory
    netiso-srv -i <file.iso>            convert to file.ziso
    netiso-srv -d <file.ziso>           convert to file.iso
    netiso-srv -c <file.iso>            convert to file.chd
    netiso-srv -x <file.chd>            convert to file.iso

## Layout

`src/` is the library, verified with Verus. It decides and computes, and does
no input or output:

- `message`, `bytes`: the requests of a console as bytes
- `server`: what each request is answered, and what is mounted
- `chd_cache`: random access into a CHD through a run of hunks at hand
- `iso`: what is known of an image, and where its game partition starts
- `scan`: which files are images, and what a scan lists
- `naming`, `convert`, `errors`: where a converted image is written, in which
  steps, and why a conversion fails
- `round_trips`: what converting, and then serving or extracting, come to
- `cli`: the command line
- `paths`, `path_facts`, `text`: how each platform reads a path, what follows from
  that, and text, with the functions of `std` that are trusted

The functions whose names start with `law_` state what holds of the library
beyond a single call.

`app/` is the program around it: sockets, files and the crates that compress.
`tests/` runs the library on concrete values.
