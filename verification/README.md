# archpatch

Keeps changes to the configuration files of Arch Linux packages as patch files: it applies them,
and reports which backed-up files were changed in ways that no patch accounts for.

The library under `src/` is verified with Verus:

- `patch`: patches, and what comes of applying one to a text;
- `laws`: what holds of applying patches as a whole;
- `patch_file`: patch files, the file that each is for, and reading a directory of them;
- `shape`: the texts that the parser for patches can be given;
- `path`, `text`: paths and lines as sequences of characters;
- `backup`, `archive`: backed-up files, and the files that packages ship;
- `applying`: what applying all patches does with each file, and what holds of whole runs;
- `report`, `listing`: the check of a backed-up file, and the printed report;
- `command`: the commands of the program.

Six functions of other libraries are trusted to do what their contracts say:
`gitpatch::Patch::from_single`, `itertools::Itertools::join`, `String::push`, `String::pop`,
`String::from_utf8` and `String::from_utf8_lossy`.

The program under `app/` reads files and the package database, runs other programs and prints.
