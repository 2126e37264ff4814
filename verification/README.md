# rustlessons

Small string, number and file-system exercises, with their logic verified by Verus.

- `src/` is the verified library:
  - `text`: white space, decimal numerals (and parsing them back), trimming,
    splitting into words or at a separator, prefix and case-insensitive comparison;
  - `functions`: parity, FizzBuzz, the first common multiple;
  - `calc`: what a calculator line asks for, which operation a sign names and when
    it would divide by zero, integer sum/difference/product;
  - `ownership`, `moves`, `borrowing`: first words, the longest of three strings,
    upper-casing, greeting, concatenation, counting words, capitalising, the maximum;
  - `dupfind`: the duplicate-file finder's command line, which directory entries it
    considers, grouping by size and SHA-256 digests (through the `sha2` crate), and
    its report (human-readable sizes, reclaimable space).
- `app/` holds the programs themselves: terminal and file-system I/O, the
  floating-point arithmetic of the calculator, and printing.
- `tests/` runs the library on concrete values.
