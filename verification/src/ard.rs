//! The data file side: a flat concatenation of member byte ranges. Given a
//! descriptor, extraction is copying the exact `disk_size` bytes that start
//! at the descriptor's derived `file_pos`, under the member's resolved name
//! or, for an unresolved member, under the 16-digit uppercase hex form of
//! its name hash.

use vstd::prelude::*;
use vstd::slice::{slice_subrange, slice_to_vec};
use crate::arh::{ArhFileDescriptor, DescView};

verus! {

/// Extraction failure: the descriptor's byte range runs past the end of the
/// data bytes, the in-memory counterpart of a short read.
#[derive(Clone, Copy, Debug, PartialEq, Eq, Structural)]
pub enum ExtractError {
    OutOfRange,
}

/// Hex digit `d` (below 16) as an uppercase character.
pub open spec fn hex_char(d: u64) -> char {
    if d == 0 {
        '0'
    } else if d == 1 {
        '1'
    } else if d == 2 {
        '2'
    } else if d == 3 {
        '3'
    } else if d == 4 {
        '4'
    } else if d == 5 {
        '5'
    } else if d == 6 {
        '6'
    } else if d == 7 {
        '7'
    } else if d == 8 {
        '8'
    } else if d == 9 {
        '9'
    } else if d == 10 {
        'A'
    } else if d == 11 {
        'B'
    } else if d == 12 {
        'C'
    } else if d == 13 {
        'D'
    } else if d == 14 {
        'E'
    } else {
        'F'
    }
}

/// The `i`-th hex digit of `h`, counting from the most significant.
pub open spec fn nibble(h: u64, i: int) -> u64 {
    (h >> (((15 - i) * 4) as u64)) & 0xF
}

/// The 16-character uppercase hexadecimal form of a 64-bit value.
pub open spec fn hex16(h: u64) -> Seq<char> {
    Seq::new(16, |i: int| hex_char(nibble(h, i)))
}

/// Appends the uppercase hex character for digit `d` to `s`.
fn push_hex_char(s: &mut String, d: u64)
    requires
        d < 16,
    ensures
        final(s)@ == old(s)@ + seq![hex_char(d)],
{
    proof {
        reveal_strlit("0");
        reveal_strlit("1");
        reveal_strlit("2");
        reveal_strlit("3");
        reveal_strlit("4");
        reveal_strlit("5");
        reveal_strlit("6");
        reveal_strlit("7");
        reveal_strlit("8");
        reveal_strlit("9");
        reveal_strlit("A");
        reveal_strlit("B");
        reveal_strlit("C");
        reveal_strlit("D");
        reveal_strlit("E");
        reveal_strlit("F");
    }
    if d == 0 {
        s.append("0");
    } else if d == 1 {
        s.append("1");
    } else if d == 2 {
        s.append("2");
    } else if d == 3 {
        s.append("3");
    } else if d == 4 {
        s.append("4");
    } else if d == 5 {
        s.append("5");
    } else if d == 6 {
        s.append("6");
    } else if d == 7 {
        s.append("7");
    } else if d == 8 {
        s.append("8");
    } else if d == 9 {
        s.append("9");
    } else if d == 10 {
        s.append("A");
    } else if d == 11 {
        s.append("B");
    } else if d == 12 {
        s.append("C");
    } else if d == 13 {
        s.append("D");
    } else if d == 14 {
        s.append("E");
    } else {
        s.append("F");
    }
    proof {
        assert(final(s)@ =~= old(s)@ + seq![hex_char(d)]);
    }
}

/// Writes `h` as 16 uppercase hex digits, most significant first.
pub fn to_hex16(h: u64) -> (s: String)
    ensures
        s@ == hex16(h),
{
    let mut s = String::new();
    let mut i: usize = 0;
    while i < 16
        invariant
            i <= 16,
            s@ == hex16(h).take(i as int),
        decreases 16 - i,
    {
        let shift: u64 = (15 - i as u64) * 4;
        let d: u64 = (h >> shift) & 0xF;
        proof {
            assert((h >> shift) & 0xF < 16) by (bit_vector);
            assert(d == nibble(h, i as int));
        }
        push_hex_char(&mut s, d);
        proof {
            assert(hex16(h).take(i as int + 1) =~= hex16(h).take(i as int) + seq![
                hex_char(nibble(h, i as int)),
            ]);
        }
        i = i + 1;
    }
    proof {
        assert(hex16(h).take(16) =~= hex16(h));
    }
    s
}

/// The name an extracted member file gets: its resolved name when one has
/// been supplied, otherwise the 16-digit uppercase hex form of its name
/// hash, with no extension.
pub open spec fn spec_output_filename(d: DescView) -> Seq<char> {
    if d.filename.len() == 0 {
        hex16(d.filename_hash)
    } else {
        d.filename
    }
}

/// The path an extracted member file is written to.
pub open spec fn spec_output_path(directory: Seq<char>, d: DescView) -> Seq<char> {
    directory + seq!['/'] + spec_output_filename(d)
}

/// Picks the output name for a descriptor: its resolved name, or the hex
/// form of its hash when no name was ever supplied.
pub fn output_filename(fd: &ArhFileDescriptor) -> (r: String)
    ensures
        r@ == spec_output_filename(fd@),
{
    if fd.filename.as_str().is_empty() {
        to_hex16(fd.filename_hash)
    } else {
        fd.filename.clone()
    }
}

/// Joins the destination directory and the member's output name.
pub fn output_path(directory: &str, fd: &ArhFileDescriptor) -> (r: String)
    ensures
        r@ == spec_output_path(directory@, fd@),
{
    let mut s = directory.to_owned();
    proof {
        reveal_strlit("/");
    }
    s.append("/");
    let name = output_filename(fd);
    s.append(name.as_str());
    proof {
        assert(s@ =~= spec_output_path(directory@, fd@));
    }
    s
}

/// The descriptor's byte range lies within the data bytes.
pub open spec fn desc_in_range(d: DescView, data: Seq<u8>) -> bool {
    d.file_pos + d.disk_size <= data.len()
}

/// The extractor: holds the path of the data file it reads from. The path
/// is carried for the caller that performs the file I/O; the byte-range
/// copy itself works on the data bytes.
pub struct Ard {
    filename: String,
}

impl View for Ard {
    type V = Seq<char>;

    closed spec fn view(&self) -> Seq<char> {
        self.filename@
    }
}

impl Ard {
    /// An extractor with no data file attached.
    pub fn create() -> (r: Ard)
        ensures
            r@ == Seq::<char>::empty(),
    {
        Ard { filename: String::new() }
    }

    /// An extractor reading from the data file at `data_filename`.
    pub fn open_from_file(data_filename: &str) -> (r: Ard)
        ensures
            r@ == data_filename@,
    {
        Ard { filename: data_filename.to_owned() }
    }

    /// The path of the data file this extractor reads from.
    pub fn data_filename(&self) -> (r: &str)
        ensures
            r@ == self@,
    {
        self.filename.as_str()
    }

    /// Copies the member's bytes out of the data bytes: exactly `disk_size`
    /// bytes starting at `file_pos`, and those bytes alone. Fails exactly
    /// when that range runs past the end of the data.
    pub fn extract_file(&self, file_descriptor: &ArhFileDescriptor, data: &[u8]) -> (r: Result<
        Vec<u8>,
        ExtractError,
    >)
        ensures
            desc_in_range(file_descriptor@, data@) ==> r is Ok && r.unwrap()@ == data@.subrange(
                file_descriptor.file_pos as int,
                file_descriptor.file_pos + file_descriptor.disk_size,
            ),
            !desc_in_range(file_descriptor@, data@) ==> r == Result::<Vec<u8>, ExtractError>::Err(
                ExtractError::OutOfRange,
            ),
    {
        let len64: u64 = data.len() as u64;
        if file_descriptor.file_pos <= len64 && (file_descriptor.disk_size as u64) <= len64
            - file_descriptor.file_pos {
            let start: usize = file_descriptor.file_pos as usize;
            let end: usize = start + (file_descriptor.disk_size as usize);
            let piece: &[u8] = slice_subrange(data, start, end);
            Ok(slice_to_vec(piece))
        } else {
            Err(ExtractError::OutOfRange)
        }
    }
}

} // verus!
