//! Where the files of one run are kept.
//!
//! Everything that belongs to the video `file` lives below `results/<file>/`.

use vstd::prelude::*;
use vstd::string::*;

verus! {

/// The directory of everything written for the video `file`.
pub open spec fn results_dir(file: Seq<char>) -> Seq<char> {
    "results/"@ + file
}

/// `results/<file>/frames/old`.
pub open spec fn spec_old_frames_dir(file: Seq<char>) -> Seq<char> {
    results_dir(file) + "/frames/old"@
}

/// `results/<file>/frames/new`.
pub open spec fn spec_new_frames_dir(file: Seq<char>) -> Seq<char> {
    results_dir(file) + "/frames/new"@
}

/// `results/<file>/<file>_sizes.csv`.
pub open spec fn spec_sizes_file(file: Seq<char>) -> Seq<char> {
    results_dir(file) + "/"@ + file + "_sizes.csv"@
}

/// `results/<file>/<file>`.
pub open spec fn spec_new_video_file(file: Seq<char>) -> Seq<char> {
    results_dir(file) + "/"@ + file
}

/// The directory of the frames as they were taken from the video.
pub fn old_frames_dir(file: &str) -> (dir: String)
    ensures
        dir@ == spec_old_frames_dir(file@),
{
    let mut dir = String::from_str("results/");
    dir.append(file);
    dir.append("/frames/old");
    dir
}

/// The directory of the frames after measurement, with the markers painted in.
pub fn new_frames_dir(file: &str) -> (dir: String)
    ensures
        dir@ == spec_new_frames_dir(file@),
{
    let mut dir = String::from_str("results/");
    dir.append(file);
    dir.append("/frames/new");
    dir
}

/// The table of sizes, one row for each measured frame.
pub fn sizes_file(file: &str) -> (path: String)
    ensures
        path@ == spec_sizes_file(file@),
{
    let mut path = String::from_str("results/");
    path.append(file);
    path.append("/");
    path.append(file);
    path.append("_sizes.csv");
    path
}

/// The video put together from the measured frames.
pub fn new_video_file(file: &str) -> (path: String)
    ensures
        path@ == spec_new_video_file(file@),
{
    let mut path = String::from_str("results/");
    path.append(file);
    path.append("/");
    path.append(file);
    path
}


/// The character of the digit `d`.
pub open spec fn digit_char(d: int) -> char {
    if d == 0 {
        '0'
    } else if d == 1 {
        '1'
    } else if d == 2 {
        '2'
    } else if d == 3 {
        '3'
    } else if d == 4 {
        '4'
    } else if d == 5 {
        '5'
    } else if d == 6 {
        '6'
    } else if d == 7 {
        '7'
    } else if d == 8 {
        '8'
    } else {
        '9'
    }
}

/// `n` written in decimal digits.
pub open spec fn spec_decimal(n: nat) -> Seq<char>
    decreases n,
{
    if n < 10 {
        seq![digit_char(n as int)]
    } else {
        spec_decimal(n / 10).push(digit_char((n % 10) as int))
    }
}

/// The number of decimal digits of `n`.
pub open spec fn spec_index_digits(n: nat) -> nat
    decreases n,
{
    if n < 10 {
        1
    } else {
        spec_index_digits(n / 10) + 1
    }
}

/// `n` written in decimal digits, with zeros in front until it is `width` characters long.
pub open spec fn spec_padded(n: nat, width: nat) -> Seq<char> {
    if spec_decimal(n).len() >= width {
        spec_decimal(n)
    } else {
        Seq::new((width - spec_decimal(n).len()) as nat, |i: int| '0') + spec_decimal(n)
    }
}

/// The name of a frame's file: the frame's number `index` behind the name of the video, in the
/// directory `dir`.
pub open spec fn spec_frame_file(dir: Seq<char>, file: Seq<char>, index: Seq<char>, extension: Seq<char>) -> Seq<
    char,
> {
    dir + "/"@ + file + "_"@ + index + "."@ + extension
}

/// A number has as many characters as digits.
pub proof fn lemma_decimal_len(n: nat)
    ensures
        spec_decimal(n).len() == spec_index_digits(n),
    decreases n,
{
    if n >= 10 {
        lemma_decimal_len(n / 10);
    }
}

fn digit(d: u32) -> (text: &'static str)
    requires
        d < 10,
    ensures
        text@ == seq![digit_char(d as int)],
{
    proof {
        reveal_strlit("0");
        reveal_strlit("1");
        reveal_strlit("2");
        reveal_strlit("3");
        reveal_strlit("4");
        reveal_strlit("5");
        reveal_strlit("6");
        reveal_strlit("7");
        reveal_strlit("8");
        reveal_strlit("9");
    }
    let text = if d == 0 {
        "0"
    } else if d == 1 {
        "1"
    } else if d == 2 {
        "2"
    } else if d == 3 {
        "3"
    } else if d == 4 {
        "4"
    } else if d == 5 {
        "5"
    } else if d == 6 {
        "6"
    } else if d == 7 {
        "7"
    } else if d == 8 {
        "8"
    } else {
        "9"
    };
    assert(text@ =~= seq![digit_char(d as int)]);
    text
}

/// `n` in decimal digits.
pub fn decimal(n: u32) -> (text: String)
    ensures
        text@ == spec_decimal(n as nat),
    decreases n,
{
    if n < 10 {
        String::from_str(digit(n))
    } else {
        let mut text = decimal(n / 10);
        text.append(digit(n % 10));
        assert(text@ =~= spec_decimal((n / 10) as nat).push(digit_char((n % 10) as int)));
        text
    }
}

/// The number of digits that the numbers of `fcount` frames are written with.
pub fn index_digits(fcount: u32) -> (digits: usize)
    ensures
        digits == spec_index_digits(fcount as nat),
        1 <= digits <= 10,
    decreases fcount,
{
    if fcount < 10 {
        1
    } else {
        let shorter: usize = index_digits(fcount / 10);
        proof {
            lemma_digits_bound(fcount as nat);
        }
        shorter + 1
    }
}

proof fn lemma_digits_bound(n: nat)
    requires
        n <= u32::MAX,
    ensures
        spec_index_digits(n) <= 10,
{
    reveal_with_fuel(spec_index_digits, 11);
}

/// The number of `frame`, with zeros in front so that it has as many digits as `fcount`.
pub fn frame_index(frame: u32, fcount: u32) -> (index: String)
    ensures
        index@ == spec_padded(frame as nat, spec_index_digits(fcount as nat)),
{
    let width: usize = index_digits(fcount);
    let number: String = decimal(frame);
    let mut zeros: usize = index_digits(frame);
    proof {
        lemma_decimal_len(frame as nat);
    }
    let mut index = String::from_str("");
    proof {
        reveal_strlit("");
        reveal_strlit("0");
    }
    assert(index@ =~= Seq::new(0, |i: int| '0'));
    while zeros < width
        invariant
            zeros <= width || zeros == spec_index_digits(frame as nat),
            zeros >= spec_index_digits(frame as nat),
            index@ == Seq::new((zeros - spec_index_digits(frame as nat)) as nat, |i: int| '0'),
            "0"@ == seq!['0'],
        decreases width - zeros,
    {
        index.append("0");
        zeros += 1;
        assert(index@ =~= Seq::new((zeros - spec_index_digits(frame as nat)) as nat, |i: int| '0'));
    }
    index.append(number.as_str());
    assert(index@ =~= spec_padded(frame as nat, spec_index_digits(fcount as nat)));
    index
}

fn frame_file(dir: String, file: &str, index: &str, extension: &str) -> (path: String)
    ensures
        path@ == spec_frame_file(dir@, file@, index@, extension@),
{
    let mut path = dir;
    path.append("/");
    path.append(file);
    path.append("_");
    path.append(index);
    path.append(".");
    path.append(extension);
    path
}

/// The file of the frame `index` as it was taken from the video.
pub fn old_frame_file(file: &str, index: &str, extension: &str) -> (path: String)
    ensures
        path@ == spec_frame_file(spec_old_frames_dir(file@), file@, index@, extension@),
{
    frame_file(old_frames_dir(file), file, index, extension)
}

/// The file of the frame `index` after measurement.
pub fn new_frame_file(file: &str, index: &str, extension: &str) -> (path: String)
    ensures
        path@ == spec_frame_file(spec_new_frames_dir(file@), file@, index@, extension@),
{
    frame_file(new_frames_dir(file), file, index, extension)
}

} // verus!
