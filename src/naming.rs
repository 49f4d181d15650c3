//! Where artifacts live: `{destination}/{stem}` is the folder of a split file
//! and `{destination}/{stem}/{index}.json` the artifact of chunk `index`.
use vstd::prelude::*;

use crate::error::ChunkError;

verus! {

/// The decimal digit for `d < 10`.
pub open spec fn digit_char(d: nat) -> char {
    if d == 0 {
        '0'
    } else if d == 1 {
        '1'
    } else if d == 2 {
        '2'
    } else if d == 3 {
        '3'
    } else if d == 4 {
        '4'
    } else if d == 5 {
        '5'
    } else if d == 6 {
        '6'
    } else if d == 7 {
        '7'
    } else if d == 8 {
        '8'
    } else {
        '9'
    }
}

/// `n` written in decimal, without leading zeros.
pub open spec fn decimal(n: nat) -> Seq<char>
    decreases n,
{
    if n < 10 {
        seq![digit_char(n)]
    } else {
        decimal(n / 10).push(digit_char(n % 10))
    }
}

/// The extension of every artifact.
pub open spec fn artifact_suffix() -> Seq<char> {
    seq!['.', 'j', 's', 'o', 'n']
}

/// The folder that holds the artifacts of the file with stem `stem`.
pub open spec fn folder_path(dest: Seq<char>, stem: Seq<char>) -> Seq<char> {
    dest + seq!['/'] + stem
}

/// The artifact of chunk `i` of the file with stem `stem`.
pub open spec fn artifact_path(dest: Seq<char>, stem: Seq<char>, i: nat) -> Seq<char> {
    folder_path(dest, stem) + seq!['/'] + decimal(i) + artifact_suffix()
}

/// What `std::path::Path::file_stem` gives for a path: its file name without
/// the last extension, if it names a file at all.
pub uninterp spec fn path_stem(p: Seq<char>) -> Option<Seq<char>>;

/// Relies on `str::chars`: the characters of `s`, in order.
#[verifier::external_body]
fn chars_of(s: &str) -> (r: Vec<char>)
    ensures
        r@ == s@,
{
    s.chars().collect()
}

/// Relies on `String`'s `FromIterator<char>`: the string of these characters.
#[verifier::external_body]
fn string_of(v: &Vec<char>) -> (r: String)
    ensures
        r@ == v@,
{
    v.iter().collect()
}

/// Relies on `std::path::Path::file_stem`; the stem of a `&str` path is
/// itself valid UTF-8, so `to_str` only converts.
#[verifier::external_body]
fn file_stem(path: &str) -> (r: Option<String>)
    ensures
        match r {
            Some(t) => path_stem(path@) == Some(t@),
            None => path_stem(path@) is None,
        },
{
    std::path::Path::new(path).file_stem().and_then(|s| s.to_str()).map(|s| s.to_string())
}

fn digit(d: usize) -> (c: char)
    requires
        d < 10,
    ensures
        c == digit_char(d as nat),
{
    match d {
        0 => '0',
        1 => '1',
        2 => '2',
        3 => '3',
        4 => '4',
        5 => '5',
        6 => '6',
        7 => '7',
        8 => '8',
        _ => '9',
    }
}

fn push_decimal(out: &mut Vec<char>, n: usize)
    ensures
        final(out)@ == old(out)@ + decimal(n as nat),
    decreases n,
{
    if n >= 10 {
        push_decimal(out, n / 10);
    }
    out.push(digit(n % 10));
    proof {
        if n >= 10 {
            assert(final(out)@ =~= old(out)@ + decimal(n as nat));
        } else {
            assert(final(out)@ =~= old(out)@ + decimal(n as nat));
        }
    }
}

fn push_str(out: &mut Vec<char>, s: &str)
    ensures
        final(out)@ == old(out)@ + s@,
{
    let mut cs = chars_of(s);
    out.append(&mut cs);
}

/// The file name of `path` without its extension: the stem that names the
/// folder of its chunks. A path that names no file is refused.
pub fn get_file_name_from_path(path: &str) -> (r: Result<String, ChunkError>)
    ensures
        path_stem(path@) is None <==> r is Err,
        r matches Ok(t) ==> path_stem(path@) == Some(t@),
        r is Err ==> r == Err::<String, ChunkError>(ChunkError::InvalidArgument),
{
    match file_stem(path) {
        Some(t) => Ok(t),
        None => Err(ChunkError::InvalidArgument),
    }
}

/// The folder `{dest}/{stem}`.
pub fn make_folder_path(dest: &str, stem: &str) -> (r: String)
    ensures
        r@ == folder_path(dest@, stem@),
{
    let mut out: Vec<char> = Vec::new();
    push_str(&mut out, dest);
    out.push('/');
    push_str(&mut out, stem);
    assert(out@ =~= folder_path(dest@, stem@));
    string_of(&out)
}

/// The artifact path `{dest}/{stem}/{index}.json`.
pub fn chunk_artifact_path(dest: &str, stem: &str, index: usize) -> (r: String)
    ensures
        r@ == artifact_path(dest@, stem@, index as nat),
{
    let mut out: Vec<char> = Vec::new();
    push_str(&mut out, dest);
    out.push('/');
    push_str(&mut out, stem);
    out.push('/');
    push_decimal(&mut out, index);
    out.push('.');
    out.push('j');
    out.push('s');
    out.push('o');
    out.push('n');
    assert(out@ =~= artifact_path(dest@, stem@, index as nat));
    string_of(&out)
}

proof fn lemma_decimal_len(n: nat)
    ensures
        decimal(n).len() >= 1,
        n >= 10 ==> decimal(n).len() >= 2,
    decreases n,
{
    if n >= 10 {
        lemma_decimal_len(n / 10);
    }
}

proof fn lemma_digit_injective(x: nat, y: nat)
    requires
        x < 10,
        y < 10,
        digit_char(x) == digit_char(y),
    ensures
        x == y,
{
}

proof fn lemma_decimal_injective(a: nat, b: nat)
    requires
        decimal(a) == decimal(b),
    ensures
        a == b,
    decreases a,
{
    lemma_decimal_len(a);
    lemma_decimal_len(b);
    if a >= 10 && b >= 10 {
        assert(decimal(a).drop_last() =~= decimal(a / 10));
        assert(decimal(b).drop_last() =~= decimal(b / 10));
        lemma_decimal_injective(a / 10, b / 10);
        assert(digit_char(a % 10) == decimal(a).last());
        assert(digit_char(b % 10) == decimal(b).last());
        lemma_digit_injective(a % 10, b % 10);
        assert(a == 10 * (a / 10) + a % 10);
        assert(b == 10 * (b / 10) + b % 10);
    } else if a < 10 && b < 10 {
        assert(decimal(a) == seq![digit_char(a)]);
        assert(decimal(b) == seq![digit_char(b)]);
        assert(decimal(a)[0] == digit_char(a));
        assert(decimal(b)[0] == digit_char(b));
        lemma_digit_injective(a, b);
    }
}

/// Distinct chunk indices name distinct artifacts, so the chunks of one file
/// never share an artifact.
pub proof fn lemma_artifact_paths_distinct(dest: Seq<char>, stem: Seq<char>, i: nat, j: nat)
    requires
        i != j,
    ensures
        artifact_path(dest, stem, i) != artifact_path(dest, stem, j),
{
    let pre = folder_path(dest, stem) + seq!['/'];
    let pi = artifact_path(dest, stem, i);
    let pj = artifact_path(dest, stem, j);
    if pi == pj {
        assert(pi =~= pre + decimal(i) + artifact_suffix());
        assert(pj =~= pre + decimal(j) + artifact_suffix());
        let lo = pre.len() as int;
        assert(decimal(i).len() == decimal(j).len());
        assert(pi.subrange(lo, lo + decimal(i).len()) =~= decimal(i));
        assert(pj.subrange(lo, lo + decimal(j).len()) =~= decimal(j));
        lemma_decimal_injective(i, j);
    }
}

} // verus!
