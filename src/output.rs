use vstd::prelude::*;
use crate::error::TSPError;
use crate::parser::{chars_of, string_of};

verus! {

pub open spec fn digit_char(d: nat) -> char {
    if d == 0 { '0' } else if d == 1 { '1' } else if d == 2 { '2' } else if d == 3 { '3' }
    else if d == 4 { '4' } else if d == 5 { '5' } else if d == 6 { '6' } else if d == 7 { '7' }
    else if d == 8 { '8' } else { '9' }
}

fn digit(d: u32) -> (r: char)
    ensures
        r == digit_char(d as nat),
{
    if d == 0 { '0' } else if d == 1 { '1' } else if d == 2 { '2' } else if d == 3 { '3' }
    else if d == 4 { '4' } else if d == 5 { '5' } else if d == 6 { '6' } else if d == 7 { '7' }
    else if d == 8 { '8' } else { '9' }
}

/// Decimal digits of `n`, most significant first.
pub open spec fn decimal(n: nat) -> Seq<char>
    decreases n,
{
    if n < 10 {
        seq![digit_char(n)]
    } else {
        decimal(n / 10).push(digit_char(n % 10))
    }
}

pub open spec fn output_dir() -> Seq<char> {
    seq!['o', 'u', 't', 'p', 'u', 't']
}

pub open spec fn png_suffix() -> Seq<char> {
    seq!['.', 'p', 'n', 'g']
}

/// The `k`-th name tried for the image: `output/<base>.png` first, then
/// `output/<base>_<k>.png`.
pub open spec fn output_candidate(base: Seq<char>, k: nat) -> Seq<char> {
    if k == 0 {
        output_dir() + seq!['/'] + base + png_suffix()
    } else {
        output_dir() + seq!['/'] + base + seq!['_'] + decimal(k) + png_suffix()
    }
}

fn push_decimal(out: &mut Vec<char>, n: u32)
    ensures
        final(out)@ == old(out)@ + decimal(n as nat),
    decreases n,
{
    if n >= 10 {
        push_decimal(out, n / 10);
    }
    out.push(digit(n % 10));
    assert(final(out)@ =~= old(out)@ + decimal(n as nat));
}

fn push_all(out: &mut Vec<char>, s: &Vec<char>)
    ensures
        final(out)@ == old(out)@ + s@,
{
    let mut k: usize = 0;
    while k < s.len()
        invariant
            k <= s.len(),
            out@ == old(out)@ + s@.subrange(0, k as int),
        decreases s.len() - k,
    {
        out.push(s[k]);
        k += 1;
        assert(out@ =~= old(out)@ + s@.subrange(0, k as int));
    }
    assert(s@.subrange(0, k as int) =~= s@);
}

/// The `k`-th candidate name for the image of base name `base`.
pub fn candidate_name(base: &str, k: u32) -> (r: String)
    ensures
        r@ == output_candidate(base@, k as nat),
{
    let b = chars_of(base);
    let mut out: Vec<char> = Vec::new();
    out.push('o');
    out.push('u');
    out.push('t');
    out.push('p');
    out.push('u');
    out.push('t');
    out.push('/');
    push_all(&mut out, &b);
    if k > 0 {
        out.push('_');
        push_decimal(&mut out, k);
    }
    out.push('.');
    out.push('p');
    out.push('n');
    out.push('g');
    if k == 0 {
        assert(out@ =~= output_candidate(base@, 0));
    } else {
        assert(out@ =~= output_candidate(base@, k as nat));
    }
    string_of(&out)
}

/// Number of candidate names for the image: the plain one and attempts 1 to 9999.
pub const OUTPUT_CANDIDATES: usize = 10000;

/// Candidate `k` is the first one not taken.
pub open spec fn first_free(taken: Seq<bool>, k: int) -> bool {
    &&& 0 <= k < taken.len()
    &&& !taken[k]
    &&& forall|j: int| 0 <= j < k ==> #[trigger] taken[j]
}

/// Picks the name of the image file. `dir_exists` tells whether the output
/// directory exists, and `taken[k]` whether candidate `k` (see
/// `output_candidate`) already exists. The first candidate not taken is
/// chosen; the output directory must exist.
pub fn generate_unique_filename(base_name: &str, dir_exists: bool, taken: &Vec<bool>) -> (r: Result<String, TSPError>)
    requires
        taken.len() == OUTPUT_CANDIDATES,
    ensures
        (r matches Err(TSPError::FileNotFound(_))) <==> !dir_exists,
        r matches Err(TSPError::FileNotFound(p)) ==> p@ == output_dir(),
        (r matches Err(TSPError::TooManyOutputAttempts)) <==> dir_exists && forall|k: int|
            0 <= k < taken.len() ==> #[trigger] taken@[k],
        r is Ok <==> dir_exists && exists|k: int| 0 <= k < taken.len() && !#[trigger] taken@[k],
        r matches Ok(name) ==> exists|k: int|
            #[trigger] first_free(taken@, k) && name@ == output_candidate(base_name@, k as nat),
{
    if !dir_exists {
        let dir = string_of(&vec!['o', 'u', 't', 'p', 'u', 't']);
        assert(dir@ =~= output_dir());
        return Err(TSPError::FileNotFound(dir));
    }
    let mut k: usize = 0;
    while k < OUTPUT_CANDIDATES
        invariant
            dir_exists,
            taken.len() == OUTPUT_CANDIDATES,
            k <= OUTPUT_CANDIDATES,
            forall|j: int| 0 <= j < k ==> #[trigger] taken@[j],
        decreases OUTPUT_CANDIDATES - k,
    {
        if !taken[k] {
            let name = candidate_name(base_name, k as u32);
            assert(first_free(taken@, k as int));
            assert(!taken@[k as int]);
            assert(name@ == output_candidate(base_name@, (k as int) as nat));
            return Ok(name);
        }
        k += 1;
    }
    Err(TSPError::TooManyOutputAttempts)
}

} // verus!
