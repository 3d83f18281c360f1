//! The binary form of the database: deterministic little-endian encoders,
//! their decoders, and the proof that decoding an encoding yields the
//! original value.
//!
//! Integers are fixed-width little-endian. A signed time is biased into an
//! unsigned word. A string is its character count followed by one 32-bit
//! scalar value per character. A list is its element count followed by the
//! elements; identity lists and record lists are only accepted back in
//! strictly ascending identity order, the order in which they are written.

use vstd::prelude::*;
use vstd::bytes::*;
use vstd::slice::slice_index_get;
use vstd::slice::slice_subrange;
use vstd::string::StringExecFns;
use vstd::utf8::is_scalar;

use crate::note::{note_views, Note, NoteView, Notes, NotesView};
use crate::store::{sorted_keys, Keyed};
use crate::task::{task_views, RepeatType, Task, TaskType, TaskView, Tasks, TasksView};

verus! {

// ---------------------------------------------------------------- primitives
/// One byte.
pub open spec fn spec_enc_u8(x: u8) -> Seq<u8> {
    seq![x]
}

pub open spec fn spec_dec_u8(s: Seq<u8>) -> Option<(u8, int)> {
    if s.len() >= 1 {
        Some((s[0], 1int))
    } else {
        None
    }
}

/// Four little-endian bytes.
pub open spec fn spec_enc_u32(x: u32) -> Seq<u8> {
    spec_u32_to_le_bytes(x)
}

pub open spec fn spec_dec_u32(s: Seq<u8>) -> Option<(u32, int)> {
    if s.len() >= 4 {
        Some((spec_u32_from_le_bytes(s.take(4)), 4int))
    } else {
        None
    }
}

/// Eight little-endian bytes.
pub open spec fn spec_enc_u64(x: u64) -> Seq<u8> {
    spec_u64_to_le_bytes(x)
}

pub open spec fn spec_dec_u64(s: Seq<u8>) -> Option<(u64, int)> {
    if s.len() >= 8 {
        Some((spec_u64_from_le_bytes(s.take(8)), 8int))
    } else {
        None
    }
}

/// Sixteen little-endian bytes.
pub open spec fn spec_enc_u128(x: u128) -> Seq<u8> {
    spec_u128_to_le_bytes(x)
}

pub open spec fn spec_dec_u128(s: Seq<u8>) -> Option<(u128, int)> {
    if s.len() >= 16 {
        Some((spec_u128_from_le_bytes(s.take(16)), 16int))
    } else {
        None
    }
}

/// A signed time biased into an unsigned word.
pub open spec fn spec_u64_of_i64(x: i64) -> u64 {
    (x + 0x8000_0000_0000_0000) as u64
}

pub open spec fn spec_i64_of_u64(v: u64) -> i64 {
    (v - 0x8000_0000_0000_0000) as i64
}

pub open spec fn spec_enc_i64(x: i64) -> Seq<u8> {
    spec_enc_u64(spec_u64_of_i64(x))
}

pub open spec fn spec_dec_i64(s: Seq<u8>) -> Option<(i64, int)> {
    match spec_dec_u64(s) {
        Some((v, n)) => Some((spec_i64_of_u64(v), n)),
        None => None,
    }
}

// ------------------------------------------------------------------- options
/// A presence byte, then the value when present.
pub open spec fn spec_enc_opt_i64(o: Option<i64>) -> Seq<u8> {
    match o {
        None => seq![0u8],
        Some(x) => seq![1u8] + spec_enc_i64(x),
    }
}

pub open spec fn spec_dec_opt_i64(s: Seq<u8>) -> Option<(Option<i64>, int)> {
    match spec_dec_u8(s) {
        None => None,
        Some((b, _)) => if b == 0 {
            Some((None, 1int))
        } else if b == 1 {
            match spec_dec_i64(s.skip(1)) {
                None => None,
                Some((x, n)) => Some((Some(x), 1 + n)),
            }
        } else {
            None
        },
    }
}

// ---------------------------------------------------------------------- tags
/// The classification in one byte: absent, deadline, or repeated.
pub open spec fn spec_enc_ttag(t: Option<TaskType>) -> Seq<u8> {
    match t {
        None => seq![0u8],
        Some(TaskType::Deadline) => seq![1u8],
        Some(TaskType::Repeated) => seq![2u8],
    }
}

pub open spec fn spec_dec_ttag(s: Seq<u8>) -> Option<(Option<TaskType>, int)> {
    match spec_dec_u8(s) {
        None => None,
        Some((b, _)) => if b == 0 {
            Some((None, 1int))
        } else if b == 1 {
            Some((Some(TaskType::Deadline), 1int))
        } else if b == 2 {
            Some((Some(TaskType::Repeated), 1int))
        } else {
            None
        },
    }
}

/// The repetition in one byte: absent, daily, weekly, or monthly.
pub open spec fn spec_enc_rtag(t: Option<RepeatType>) -> Seq<u8> {
    match t {
        None => seq![0u8],
        Some(RepeatType::Daily) => seq![1u8],
        Some(RepeatType::Weekly) => seq![2u8],
        Some(RepeatType::Monthly) => seq![3u8],
    }
}

pub open spec fn spec_dec_rtag(s: Seq<u8>) -> Option<(Option<RepeatType>, int)> {
    match spec_dec_u8(s) {
        None => None,
        Some((b, _)) => if b == 0 {
            Some((None, 1int))
        } else if b == 1 {
            Some((Some(RepeatType::Daily), 1int))
        } else if b == 2 {
            Some((Some(RepeatType::Weekly), 1int))
        } else if b == 3 {
            Some((Some(RepeatType::Monthly), 1int))
        } else {
            None
        },
    }
}

// ------------------------------------------------------------------- strings
/// One character as its 32-bit scalar value.
pub open spec fn spec_enc_char(c: char) -> Seq<u8> {
    spec_enc_u32(c as u32)
}

pub open spec fn spec_dec_char(s: Seq<u8>) -> Option<(char, int)> {
    match spec_dec_u32(s) {
        None => None,
        Some((v, n)) => if is_scalar(v) {
            Some((v as char, n))
        } else {
            None
        },
    }
}

/// The characters of a string from position `i` on.
pub open spec fn spec_enc_chars(s: Seq<char>, i: nat) -> Seq<u8>
    decreases s.len() - i,
{
    if i >= s.len() {
        Seq::empty()
    } else {
        spec_enc_char(s[i as int]) + spec_enc_chars(s, i + 1)
    }
}

pub open spec fn spec_dec_chars(s: Seq<u8>, n: u64) -> Option<(Seq<char>, int)>
    decreases n,
{
    if n == 0 {
        Some((Seq::empty(), 0int))
    } else {
        match spec_dec_char(s) {
            None => None,
            Some((c, k)) => match spec_dec_chars(s.skip(k), (n - 1) as u64) {
                None => None,
                Some((cs, m)) => Some((seq![c] + cs, k + m)),
            },
        }
    }
}

/// A string: its character count, then its characters.
pub open spec fn spec_enc_str(s: Seq<char>) -> Seq<u8> {
    spec_enc_u64(s.len() as u64) + spec_enc_chars(s, 0)
}

pub open spec fn spec_dec_str(s: Seq<u8>) -> Option<(Seq<char>, int)> {
    match spec_dec_u64(s) {
        None => None,
        Some((n, h)) => match spec_dec_chars(s.skip(h), n) {
            None => None,
            Some((cs, m)) => Some((cs, h + m)),
        },
    }
}

// ------------------------------------------------------------ identity lists
/// The identities of a list from position `i` on.
pub open spec fn spec_enc_ids(s: Seq<u128>, i: nat) -> Seq<u8>
    decreases s.len() - i,
{
    if i >= s.len() {
        Seq::empty()
    } else {
        spec_enc_u128(s[i as int]) + spec_enc_ids(s, i + 1)
    }
}

pub open spec fn spec_dec_ids(s: Seq<u8>, n: u64) -> Option<(Seq<u128>, int)>
    decreases n,
{
    if n == 0 {
        Some((Seq::empty(), 0int))
    } else {
        match spec_dec_u128(s) {
            None => None,
            Some((x, k)) => match spec_dec_ids(s.skip(k), (n - 1) as u64) {
                None => None,
                Some((xs, m)) => Some((seq![x] + xs, k + m)),
            },
        }
    }
}

/// An identity list: its count, then its identities, accepted back only in
/// strictly ascending order.
pub open spec fn spec_enc_id_list(s: Seq<u128>) -> Seq<u8> {
    spec_enc_u64(s.len() as u64) + spec_enc_ids(s, 0)
}

pub open spec fn spec_dec_id_list(s: Seq<u8>) -> Option<(Seq<u128>, int)> {
    match spec_dec_u64(s) {
        None => None,
        Some((n, h)) => match spec_dec_ids(s.skip(h), n) {
            None => None,
            Some((xs, m)) => if sorted_keys(xs) {
                Some((xs, h + m))
            } else {
                None
            },
        },
    }
}

// ------------------------------------------------------------- trusted items
/// Relies on `core::char::from_u32`: the result is the character with the
/// given scalar value, and absent exactly when the value is a surrogate or
/// above the largest character.
#[verifier::external_body]
fn char_from_u32(v: u32) -> (r: Option<char>)
    ensures
        match r {
            Some(c) => is_scalar(v) && c == v as char,
            None => !is_scalar(v),
        },
{
    char::from_u32(v)
}

/// Relies on `alloc::string::String::push`: appends exactly the one
/// character at the end of the string.
#[verifier::external_body]
fn push_char(s: &mut String, c: char)
    ensures
        final(s)@ == old(s)@.push(c),
{
    s.push(c);
}

// ------------------------------------------------------------ exec encoders
pub(crate) fn enc_u8(out: &mut Vec<u8>, x: u8)
    ensures
        final(out)@ == old(out)@ + spec_enc_u8(x),
{
    out.push(x);
    proof {
        assert(out@ =~= old(out)@ + spec_enc_u8(x));
    }
}

pub(crate) fn enc_u32(out: &mut Vec<u8>, x: u32)
    ensures
        final(out)@ == old(out)@ + spec_enc_u32(x),
{
    let mut bs = u32_to_le_bytes(x);
    out.append(&mut bs);
}

pub(crate) fn enc_u64(out: &mut Vec<u8>, x: u64)
    ensures
        final(out)@ == old(out)@ + spec_enc_u64(x),
{
    let mut bs = u64_to_le_bytes(x);
    out.append(&mut bs);
}

pub(crate) fn enc_u128(out: &mut Vec<u8>, x: u128)
    ensures
        final(out)@ == old(out)@ + spec_enc_u128(x),
{
    let mut bs = u128_to_le_bytes(x);
    out.append(&mut bs);
}

pub(crate) fn enc_i64(out: &mut Vec<u8>, x: i64)
    ensures
        final(out)@ == old(out)@ + spec_enc_i64(x),
{
    let biased = ((x as i128) + 0x8000_0000_0000_0000i128) as u64;
    assert(biased == spec_u64_of_i64(x));
    enc_u64(out, biased);
}

pub(crate) fn enc_opt_i64(out: &mut Vec<u8>, o: Option<i64>)
    ensures
        final(out)@ == old(out)@ + spec_enc_opt_i64(o),
{
    match o {
        None => enc_u8(out, 0),
        Some(x) => {
            enc_u8(out, 1);
            enc_i64(out, x);
            proof {
                assert(out@ =~= old(out)@ + spec_enc_opt_i64(o));
            }
        },
    }
}

pub(crate) fn enc_ttag(out: &mut Vec<u8>, t: Option<TaskType>)
    ensures
        final(out)@ == old(out)@ + spec_enc_ttag(t),
{
    match t {
        None => enc_u8(out, 0),
        Some(TaskType::Deadline) => enc_u8(out, 1),
        Some(TaskType::Repeated) => enc_u8(out, 2),
    }
}

pub(crate) fn enc_rtag(out: &mut Vec<u8>, t: Option<RepeatType>)
    ensures
        final(out)@ == old(out)@ + spec_enc_rtag(t),
{
    match t {
        None => enc_u8(out, 0),
        Some(RepeatType::Daily) => enc_u8(out, 1),
        Some(RepeatType::Weekly) => enc_u8(out, 2),
        Some(RepeatType::Monthly) => enc_u8(out, 3),
    }
}

fn enc_chars(out: &mut Vec<u8>, s: &str, i: usize, n: usize)
    requires
        i <= n,
        n == s@.len(),
    ensures
        final(out)@ == old(out)@ + spec_enc_chars(s@, i as nat),
    decreases n - i,
{
    if i < n {
        let c = s.get_char(i);
        enc_u32(out, c as u32);
        enc_chars(out, s, i + 1, n);
        proof {
            assert(out@ =~= old(out)@ + spec_enc_chars(s@, i as nat));
        }
    } else {
        proof {
            assert(out@ =~= old(out)@ + spec_enc_chars(s@, i as nat));
        }
    }
}

pub(crate) fn enc_str(out: &mut Vec<u8>, s: &str)
    ensures
        final(out)@ == old(out)@ + spec_enc_str(s@),
        s@.len() <= u64::MAX,
{
    let n = s.unicode_len();
    enc_u64(out, n as u64);
    enc_chars(out, s, 0, n);
    proof {
        assert(out@ =~= old(out)@ + spec_enc_str(s@));
    }
}

fn enc_ids(out: &mut Vec<u8>, v: &Vec<u128>, i: usize)
    requires
        i <= v@.len(),
    ensures
        final(out)@ == old(out)@ + spec_enc_ids(v@, i as nat),
    decreases v@.len() - i,
{
    if i < v.len() {
        enc_u128(out, v[i]);
        enc_ids(out, v, i + 1);
        proof {
            assert(out@ =~= old(out)@ + spec_enc_ids(v@, i as nat));
        }
    } else {
        proof {
            assert(out@ =~= old(out)@ + spec_enc_ids(v@, i as nat));
        }
    }
}

pub(crate) fn enc_id_list(out: &mut Vec<u8>, v: &Vec<u128>)
    ensures
        final(out)@ == old(out)@ + spec_enc_id_list(v@),
        v@.len() <= u64::MAX,
{
    let n = v.len();
    enc_u64(out, n as u64);
    enc_ids(out, v, 0);
    proof {
        assert(out@ =~= old(out)@ + spec_enc_id_list(v@));
    }
}

// ------------------------------------------------------------ exec decoders
pub(crate) fn dec_u8(input: &[u8], pos: usize) -> (r: Option<(u8, usize)>)
    requires
        pos <= input@.len(),
    ensures
        match r {
            Some((v, end)) => pos <= end <= input@.len() && spec_dec_u8(input@.skip(pos as int))
                == Some((v, end - pos)),
            None => spec_dec_u8(input@.skip(pos as int)) is None,
        },
{
    if pos < input.len() {
        let b = *slice_index_get(input, pos);
        assert(input@.skip(pos as int)[0] == input@[pos as int]);
        Some((b, pos + 1))
    } else {
        None
    }
}

pub(crate) fn dec_u32(input: &[u8], pos: usize) -> (r: Option<(u32, usize)>)
    requires
        pos <= input@.len(),
    ensures
        match r {
            Some((v, end)) => pos <= end <= input@.len() && spec_dec_u32(input@.skip(pos as int))
                == Some((v, end - pos)),
            None => spec_dec_u32(input@.skip(pos as int)) is None,
        },
{
    if input.len() - pos >= 4 {
        let s = slice_subrange(input, pos, pos + 4);
        let x = u32_from_le_bytes(s);
        proof {
            assert(input@.subrange(pos as int, pos as int + 4) =~= input@.skip(pos as int).take(
                4,
            ));
        }
        Some((x, pos + 4))
    } else {
        None
    }
}

pub(crate) fn dec_u64(input: &[u8], pos: usize) -> (r: Option<(u64, usize)>)
    requires
        pos <= input@.len(),
    ensures
        match r {
            Some((v, end)) => pos <= end <= input@.len() && spec_dec_u64(input@.skip(pos as int))
                == Some((v, end - pos)),
            None => spec_dec_u64(input@.skip(pos as int)) is None,
        },
{
    if input.len() - pos >= 8 {
        let s = slice_subrange(input, pos, pos + 8);
        let x = u64_from_le_bytes(s);
        proof {
            assert(input@.subrange(pos as int, pos as int + 8) =~= input@.skip(pos as int).take(
                8,
            ));
        }
        Some((x, pos + 8))
    } else {
        None
    }
}

pub(crate) fn dec_u128(input: &[u8], pos: usize) -> (r: Option<(u128, usize)>)
    requires
        pos <= input@.len(),
    ensures
        match r {
            Some((v, end)) => pos <= end <= input@.len() && spec_dec_u128(input@.skip(pos as int))
                == Some((v, end - pos)),
            None => spec_dec_u128(input@.skip(pos as int)) is None,
        },
{
    if input.len() - pos >= 16 {
        let s = slice_subrange(input, pos, pos + 16);
        let x = u128_from_le_bytes(s);
        proof {
            assert(input@.subrange(pos as int, pos as int + 16) =~= input@.skip(pos as int).take(
                16,
            ));
        }
        Some((x, pos + 16))
    } else {
        None
    }
}

pub(crate) fn dec_i64(input: &[u8], pos: usize) -> (r: Option<(i64, usize)>)
    requires
        pos <= input@.len(),
    ensures
        match r {
            Some((v, end)) => pos <= end <= input@.len() && spec_dec_i64(input@.skip(pos as int))
                == Some((v, end - pos)),
            None => spec_dec_i64(input@.skip(pos as int)) is None,
        },
{
    match dec_u64(input, pos) {
        None => None,
        Some((v, end)) => {
            let x = ((v as i128) - 0x8000_0000_0000_0000i128) as i64;
            assert(x == spec_i64_of_u64(v));
            Some((x, end))
        },
    }
}

pub(crate) fn dec_opt_i64(input: &[u8], pos: usize) -> (r: Option<(Option<i64>, usize)>)
    requires
        pos <= input@.len(),
    ensures
        match r {
            Some((v, end)) => pos <= end <= input@.len() && spec_dec_opt_i64(
                input@.skip(pos as int),
            ) == Some((v, end - pos)),
            None => spec_dec_opt_i64(input@.skip(pos as int)) is None,
        },
{
    match dec_u8(input, pos) {
        None => None,
        Some((b, p1)) => {
            if b == 0 {
                Some((None, p1))
            } else if b == 1 {
                proof {
                    assert(input@.skip(pos as int).skip(1) =~= input@.skip(p1 as int));
                }
                match dec_i64(input, p1) {
                    None => None,
                    Some((x, end)) => Some((Some(x), end)),
                }
            } else {
                None
            }
        },
    }
}

pub(crate) fn dec_ttag(input: &[u8], pos: usize) -> (r: Option<(Option<TaskType>, usize)>)
    requires
        pos <= input@.len(),
    ensures
        match r {
            Some((v, end)) => pos <= end <= input@.len() && spec_dec_ttag(input@.skip(pos as int))
                == Some((v, end - pos)),
            None => spec_dec_ttag(input@.skip(pos as int)) is None,
        },
{
    match dec_u8(input, pos) {
        None => None,
        Some((b, p1)) => {
            if b == 0 {
                Some((None, p1))
            } else if b == 1 {
                Some((Some(TaskType::Deadline), p1))
            } else if b == 2 {
                Some((Some(TaskType::Repeated), p1))
            } else {
                None
            }
        },
    }
}

pub(crate) fn dec_rtag(input: &[u8], pos: usize) -> (r: Option<(Option<RepeatType>, usize)>)
    requires
        pos <= input@.len(),
    ensures
        match r {
            Some((v, end)) => pos <= end <= input@.len() && spec_dec_rtag(input@.skip(pos as int))
                == Some((v, end - pos)),
            None => spec_dec_rtag(input@.skip(pos as int)) is None,
        },
{
    match dec_u8(input, pos) {
        None => None,
        Some((b, p1)) => {
            if b == 0 {
                Some((None, p1))
            } else if b == 1 {
                Some((Some(RepeatType::Daily), p1))
            } else if b == 2 {
                Some((Some(RepeatType::Weekly), p1))
            } else if b == 3 {
                Some((Some(RepeatType::Monthly), p1))
            } else {
                None
            }
        },
    }
}

fn dec_char(input: &[u8], pos: usize) -> (r: Option<(char, usize)>)
    requires
        pos <= input@.len(),
    ensures
        match r {
            Some((c, end)) => pos <= end <= input@.len() && spec_dec_char(input@.skip(pos as int))
                == Some((c, end - pos)),
            None => spec_dec_char(input@.skip(pos as int)) is None,
        },
{
    match dec_u32(input, pos) {
        None => None,
        Some((v, end)) => match char_from_u32(v) {
            None => None,
            Some(c) => Some((c, end)),
        },
    }
}

fn dec_chars(input: &[u8], pos: usize, n: u64) -> (r: Option<(String, usize)>)
    requires
        pos <= input@.len(),
    ensures
        match r {
            Some((s, end)) => pos <= end <= input@.len() && spec_dec_chars(
                input@.skip(pos as int),
                n,
            ) == Some((s@, end - pos)),
            None => spec_dec_chars(input@.skip(pos as int), n) is None,
        },
    decreases n,
{
    if n == 0 {
        Some((String::new(), pos))
    } else {
        match dec_char(input, pos) {
            None => None,
            Some((c, p1)) => {
                proof {
                    assert(input@.skip(pos as int).skip(p1 - pos as int) =~= input@.skip(
                        p1 as int,
                    ));
                }
                match dec_chars(input, p1, n - 1) {
                    None => None,
                    Some((rest, end)) => {
                        let mut s = String::new();
                        push_char(&mut s, c);
                        let whole = s.concat(rest.as_str());
                        proof {
                            assert(whole@ =~= seq![c] + rest@);
                        }
                        Some((whole, end))
                    },
                }
            },
        }
    }
}

pub(crate) fn dec_str(input: &[u8], pos: usize) -> (r: Option<(String, usize)>)
    requires
        pos <= input@.len(),
    ensures
        match r {
            Some((s, end)) => pos <= end <= input@.len() && spec_dec_str(input@.skip(pos as int))
                == Some((s@, end - pos)),
            None => spec_dec_str(input@.skip(pos as int)) is None,
        },
{
    match dec_u64(input, pos) {
        None => None,
        Some((n, p1)) => {
            proof {
                assert(input@.skip(pos as int).skip(p1 - pos as int) =~= input@.skip(p1 as int));
            }
            match dec_chars(input, p1, n) {
                None => None,
                Some((s, end)) => Some((s, end)),
            }
        },
    }
}

fn dec_ids_rec(input: &[u8], pos: usize, n: u64) -> (r: Option<(Vec<u128>, usize)>)
    requires
        pos <= input@.len(),
    ensures
        match r {
            Some((v, end)) => pos <= end <= input@.len() && spec_dec_ids(
                input@.skip(pos as int),
                n,
            ) == Some((v@, end - pos)),
            None => spec_dec_ids(input@.skip(pos as int), n) is None,
        },
    decreases n,
{
    if n == 0 {
        Some((Vec::new(), pos))
    } else {
        match dec_u128(input, pos) {
            None => None,
            Some((x, p1)) => {
                proof {
                    assert(input@.skip(pos as int).skip(p1 - pos as int) =~= input@.skip(
                        p1 as int,
                    ));
                }
                match dec_ids_rec(input, p1, n - 1) {
                    None => None,
                    Some((mut v, end)) => {
                        let ghost tail = v@;
                        v.insert(0, x);
                        proof {
                            tail.insert_ensures(0, x);
                            assert(v@ =~= seq![x] + tail);
                        }
                        Some((v, end))
                    },
                }
            },
        }
    }
}

/// Checks that a decoded identity list is strictly ascending.
fn ids_ascending(v: &Vec<u128>) -> (b: bool)
    ensures
        b == sorted_keys(v@),
{
    let n = v.len();
    if n == 0 {
        return true;
    }
    let mut i: usize = 1;
    while i < n
        invariant
            1 <= i <= n,
            n == v@.len(),
            forall|a: int, b: int|
                #![trigger v@[a].key(), v@[b].key()]
                0 <= a < b < i ==> v@[a].key() < v@[b].key(),
        decreases n - i,
    {
        if v[i - 1] >= v[i] {
            proof {
                if sorted_keys(v@) {
                    assert(v@[i as int - 1].key() < v@[i as int].key());
                }
            }
            return false;
        }
        assert forall|a: int, b: int|
            #![trigger v@[a].key(), v@[b].key()]
            0 <= a < b < i + 1 implies v@[a].key() < v@[b].key() by {
            if b == i {
                assert(v@[i as int - 1].key() < v@[i as int].key());
                if a < i - 1 {
                    assert(v@[a].key() < v@[i as int - 1].key());
                }
            }
        }
        i += 1;
    }
    true
}

pub(crate) fn dec_id_list(input: &[u8], pos: usize) -> (r: Option<(Vec<u128>, usize)>)
    requires
        pos <= input@.len(),
    ensures
        match r {
            Some((v, end)) => pos <= end <= input@.len() && spec_dec_id_list(
                input@.skip(pos as int),
            ) == Some((v@, end - pos)),
            None => spec_dec_id_list(input@.skip(pos as int)) is None,
        },
{
    match dec_u64(input, pos) {
        None => None,
        Some((n, p1)) => {
            proof {
                assert(input@.skip(pos as int).skip(p1 - pos as int) =~= input@.skip(p1 as int));
            }
            match dec_ids_rec(input, p1, n) {
                None => None,
                Some((v, end)) => {
                    if ids_ascending(&v) {
                        Some((v, end))
                    } else {
                        None
                    }
                },
            }
        },
    }
}

// --------------------------------------------------------------- round trips
/// Decoding the encoding of a byte yields the byte.
pub proof fn lemma_rt_u8(x: u8, rest: Seq<u8>)
    ensures
        spec_dec_u8(spec_enc_u8(x) + rest) == Some((x, 1int)),
{
    assert((spec_enc_u8(x) + rest)[0] == x);
}

/// Decoding the encoding of a 32-bit word yields the word.
pub proof fn lemma_rt_u32(x: u32, rest: Seq<u8>)
    ensures
        spec_dec_u32(spec_enc_u32(x) + rest) == Some((x, 4int)),
        spec_enc_u32(x).len() == 4,
{
    lemma_auto_spec_u32_to_from_le_bytes();
    assert((spec_enc_u32(x) + rest).take(4) =~= spec_enc_u32(x));
}

/// Decoding the encoding of a 64-bit word yields the word.
pub proof fn lemma_rt_u64(x: u64, rest: Seq<u8>)
    ensures
        spec_dec_u64(spec_enc_u64(x) + rest) == Some((x, 8int)),
        spec_enc_u64(x).len() == 8,
{
    lemma_auto_spec_u64_to_from_le_bytes();
    assert((spec_enc_u64(x) + rest).take(8) =~= spec_enc_u64(x));
}

/// Decoding the encoding of a 128-bit word yields the word.
pub proof fn lemma_rt_u128(x: u128, rest: Seq<u8>)
    ensures
        spec_dec_u128(spec_enc_u128(x) + rest) == Some((x, 16int)),
        spec_enc_u128(x).len() == 16,
{
    lemma_auto_spec_u128_to_from_le_bytes();
    assert((spec_enc_u128(x) + rest).take(16) =~= spec_enc_u128(x));
}

/// Decoding the encoding of a signed time yields the time.
pub proof fn lemma_rt_i64(x: i64, rest: Seq<u8>)
    ensures
        spec_dec_i64(spec_enc_i64(x) + rest) == Some((x, 8int)),
        spec_enc_i64(x).len() == 8,
{
    lemma_rt_u64(spec_u64_of_i64(x), rest);
    assert(spec_i64_of_u64(spec_u64_of_i64(x)) == x);
}

/// Decoding the encoding of an optional time yields it back.
pub proof fn lemma_rt_opt_i64(o: Option<i64>, rest: Seq<u8>)
    ensures
        spec_dec_opt_i64(spec_enc_opt_i64(o) + rest) == Some((o, spec_enc_opt_i64(o).len() as int)),
{
    let s = spec_enc_opt_i64(o) + rest;
    match o {
        None => {
            assert(s[0] == 0u8);
        },
        Some(x) => {
            assert(s[0] == 1u8);
            assert(s.skip(1) =~= spec_enc_i64(x) + rest);
            lemma_rt_i64(x, rest);
        },
    }
}

/// Decoding the encoding of a classification tag yields it back.
pub proof fn lemma_rt_ttag(t: Option<TaskType>, rest: Seq<u8>)
    ensures
        spec_dec_ttag(spec_enc_ttag(t) + rest) == Some((t, 1int)),
{
    let s = spec_enc_ttag(t) + rest;
    assert(s[0] == spec_enc_ttag(t)[0]);
}

/// Decoding the encoding of a repetition tag yields it back.
pub proof fn lemma_rt_rtag(t: Option<RepeatType>, rest: Seq<u8>)
    ensures
        spec_dec_rtag(spec_enc_rtag(t) + rest) == Some((t, 1int)),
{
    let s = spec_enc_rtag(t) + rest;
    assert(s[0] == spec_enc_rtag(t)[0]);
}

/// Decoding the encoding of a character yields the character.
pub proof fn lemma_rt_char(c: char, rest: Seq<u8>)
    ensures
        spec_dec_char(spec_enc_char(c) + rest) == Some((c, 4int)),
        spec_enc_char(c).len() == 4,
{
    lemma_rt_u32(c as u32, rest);
    vstd::utf8::char_is_scalar(c);
    vstd::utf8::char_u32_cast(c, c as u32);
}

/// Decoding the encoded characters of a string from position `i` on yields
/// exactly those characters.
pub proof fn lemma_rt_chars(s: Seq<char>, i: nat, rest: Seq<u8>)
    requires
        i <= s.len(),
        s.len() <= u64::MAX,
    ensures
        spec_dec_chars(spec_enc_chars(s, i) + rest, (s.len() - i) as u64) == Some(
            (s.skip(i as int), spec_enc_chars(s, i).len() as int),
        ),
    decreases s.len() - i,
{
    if i == s.len() {
        assert(spec_enc_chars(s, i) + rest =~= rest);
        assert(s.skip(i as int) =~= Seq::<char>::empty());
    } else {
        let c = s[i as int];
        let tail = spec_enc_chars(s, i + 1);
        assert(spec_enc_chars(s, i) + rest =~= spec_enc_char(c) + (tail + rest));
        lemma_rt_char(c, tail + rest);
        assert((spec_enc_char(c) + (tail + rest)).skip(4) =~= tail + rest);
        lemma_rt_chars(s, i + 1, rest);
        assert(seq![c] + s.skip(i as int + 1) =~= s.skip(i as int));
    }
}

/// Decoding the encoding of a string yields the string.
pub proof fn lemma_rt_str(s: Seq<char>, rest: Seq<u8>)
    requires
        s.len() <= u64::MAX,
    ensures
        spec_dec_str(spec_enc_str(s) + rest) == Some((s, spec_enc_str(s).len() as int)),
{
    let n = s.len() as u64;
    let body = spec_enc_chars(s, 0);
    assert(spec_enc_str(s) + rest =~= spec_enc_u64(n) + (body + rest));
    lemma_rt_u64(n, body + rest);
    assert((spec_enc_u64(n) + (body + rest)).skip(8) =~= body + rest);
    lemma_rt_chars(s, 0, rest);
    assert(s.skip(0) =~= s);
}

/// Decoding the encoded identities of a list from position `i` on yields
/// exactly those identities.
pub proof fn lemma_rt_ids(s: Seq<u128>, i: nat, rest: Seq<u8>)
    requires
        i <= s.len(),
        s.len() <= u64::MAX,
    ensures
        spec_dec_ids(spec_enc_ids(s, i) + rest, (s.len() - i) as u64) == Some(
            (s.skip(i as int), spec_enc_ids(s, i).len() as int),
        ),
    decreases s.len() - i,
{
    if i == s.len() {
        assert(spec_enc_ids(s, i) + rest =~= rest);
        assert(s.skip(i as int) =~= Seq::<u128>::empty());
    } else {
        let x = s[i as int];
        let tail = spec_enc_ids(s, i + 1);
        assert(spec_enc_ids(s, i) + rest =~= spec_enc_u128(x) + (tail + rest));
        lemma_rt_u128(x, tail + rest);
        assert((spec_enc_u128(x) + (tail + rest)).skip(16) =~= tail + rest);
        lemma_rt_ids(s, i + 1, rest);
        assert(seq![x] + s.skip(i as int + 1) =~= s.skip(i as int));
    }
}

/// Decoding the encoding of a strictly ascending identity list yields the
/// list.
pub proof fn lemma_rt_id_list(s: Seq<u128>, rest: Seq<u8>)
    requires
        s.len() <= u64::MAX,
        sorted_keys(s),
    ensures
        spec_dec_id_list(spec_enc_id_list(s) + rest) == Some(
            (s, spec_enc_id_list(s).len() as int),
        ),
{
    let n = s.len() as u64;
    let body = spec_enc_ids(s, 0);
    assert(spec_enc_id_list(s) + rest =~= spec_enc_u64(n) + (body + rest));
    lemma_rt_u64(n, body + rest);
    assert((spec_enc_u64(n) + (body + rest)).skip(8) =~= body + rest);
    lemma_rt_ids(s, 0, rest);
    assert(s.skip(0) =~= s);
}

// --------------------------------------------------------------------- tasks
/// The length bounds a task must meet so that its counts fit the wire
/// format; every task held in memory meets them.
pub open spec fn task_bounded(t: TaskView) -> bool {
    &&& t.content.len() <= u64::MAX
    &&& t.depends.len() <= u64::MAX
}

/// A task: identity, priority, creation time, optional due time, content,
/// classification, repetition, dependency list.
pub open spec fn spec_enc_task(t: TaskView) -> Seq<u8> {
    spec_enc_u128(t.id) + spec_enc_u32(t.priority) + spec_enc_i64(t.created) + spec_enc_opt_i64(
        t.due,
    ) + spec_enc_str(t.content) + spec_enc_ttag(t.task_type) + spec_enc_rtag(t.repeat)
        + spec_enc_id_list(t.depends)
}

pub open spec fn spec_dec_task(s: Seq<u8>) -> Option<(TaskView, int)> {
    match spec_dec_u128(s) {
        None => None,
        Some((id, o1)) => match spec_dec_u32(s.skip(o1)) {
            None => None,
            Some((priority, d2)) => match spec_dec_i64(s.skip(o1 + d2)) {
                None => None,
                Some((created, d3)) => match spec_dec_opt_i64(s.skip(o1 + d2 + d3)) {
                    None => None,
                    Some((due, d4)) => match spec_dec_str(s.skip(o1 + d2 + d3 + d4)) {
                        None => None,
                        Some((content, d5)) => match spec_dec_ttag(
                            s.skip(o1 + d2 + d3 + d4 + d5),
                        ) {
                            None => None,
                            Some((task_type, d6)) => match spec_dec_rtag(
                                s.skip(o1 + d2 + d3 + d4 + d5 + d6),
                            ) {
                                None => None,
                                Some((repeat, d7)) => match spec_dec_id_list(
                                    s.skip(o1 + d2 + d3 + d4 + d5 + d6 + d7),
                                ) {
                                    None => None,
                                    Some((depends, d8)) => Some(
                                        (
                                            TaskView {
                                                id,
                                                priority,
                                                created,
                                                due,
                                                content,
                                                task_type,
                                                repeat,
                                                depends,
                                            },
                                            o1 + d2 + d3 + d4 + d5 + d6 + d7 + d8,
                                        ),
                                    ),
                                },
                            },
                        },
                    },
                },
            },
        },
    }
}

pub(crate) fn enc_task(out: &mut Vec<u8>, t: &Task)
    ensures
        final(out)@ == old(out)@ + spec_enc_task(t@),
        task_bounded(t@),
{
    enc_u128(out, t.id);
    enc_u32(out, t.priority);
    enc_i64(out, t.created);
    enc_opt_i64(out, t.due);
    enc_str(out, t.content.as_str());
    enc_ttag(out, t.task_type);
    enc_rtag(out, t.repeat);
    enc_id_list(out, &t.depends);
    proof {
        assert(out@ =~= old(out)@ + spec_enc_task(t@));
    }
}

pub(crate) fn dec_task(input: &[u8], pos: usize) -> (r: Option<(Task, usize)>)
    requires
        pos <= input@.len(),
    ensures
        match r {
            Some((t, end)) => pos <= end <= input@.len() && t@.wf() && spec_dec_task(
                input@.skip(pos as int),
            ) == Some((t@, end - pos)),
            None => spec_dec_task(input@.skip(pos as int)) is None,
        },
{
    let ghost s = input@.skip(pos as int);
    match dec_u128(input, pos) {
        None => None,
        Some((id, p1)) => {
            proof {
                assert(s.skip(p1 - pos as int) =~= input@.skip(p1 as int));
            }
            match dec_u32(input, p1) {
                None => None,
                Some((priority, p2)) => {
                    proof {
                        assert(s.skip(p2 - pos as int) =~= input@.skip(p2 as int));
                    }
                    match dec_i64(input, p2) {
                        None => None,
                        Some((created, p3)) => {
                            proof {
                                assert(s.skip(p3 - pos as int) =~= input@.skip(p3 as int));
                            }
                            match dec_opt_i64(input, p3) {
                                None => None,
                                Some((due, p4)) => {
                                    proof {
                                        assert(s.skip(p4 - pos as int) =~= input@.skip(
                                            p4 as int,
                                        ));
                                    }
                                    match dec_str(input, p4) {
                                        None => None,
                                        Some((content, p5)) => {
                                            proof {
                                                assert(s.skip(p5 - pos as int) =~= input@.skip(
                                                    p5 as int,
                                                ));
                                            }
                                            match dec_ttag(input, p5) {
                                                None => None,
                                                Some((task_type, p6)) => {
                                                    proof {
                                                        assert(s.skip(p6 - pos as int)
                                                            =~= input@.skip(p6 as int));
                                                    }
                                                    match dec_rtag(input, p6) {
                                                        None => None,
                                                        Some((repeat, p7)) => {
                                                            proof {
                                                                assert(s.skip(p7 - pos as int)
                                                                    =~= input@.skip(p7 as int));
                                                            }
                                                            match dec_id_list(input, p7) {
                                                                None => None,
                                                                Some((depends, p8)) => {
                                                                    let t = Task {
                                                                        id,
                                                                        priority,
                                                                        created,
                                                                        due,
                                                                        content,
                                                                        task_type,
                                                                        repeat,
                                                                        depends,
                                                                    };
                                                                    Some((t, p8))
                                                                },
                                                            }
                                                        },
                                                    }
                                                },
                                            }
                                        },
                                    }
                                },
                            }
                        },
                    }
                },
            }
        },
    }
}

/// The tasks of a store from position `i` on.
pub open spec fn spec_enc_task_seq(s: Seq<TaskView>, i: nat) -> Seq<u8>
    decreases s.len() - i,
{
    if i >= s.len() {
        Seq::empty()
    } else {
        spec_enc_task(s[i as int]) + spec_enc_task_seq(s, i + 1)
    }
}

pub open spec fn spec_dec_task_seq(s: Seq<u8>, n: u64) -> Option<(Seq<TaskView>, int)>
    decreases n,
{
    if n == 0 {
        Some((Seq::empty(), 0int))
    } else {
        match spec_dec_task(s) {
            None => None,
            Some((t, k)) => match spec_dec_task_seq(s.skip(k), (n - 1) as u64) {
                None => None,
                Some((ts, m)) => Some((seq![t] + ts, k + m)),
            },
        }
    }
}

fn enc_task_seq(out: &mut Vec<u8>, v: &Vec<Task>, i: usize)
    requires
        i <= v@.len(),
    ensures
        final(out)@ == old(out)@ + spec_enc_task_seq(task_views(v@), i as nat),
        forall|k: int| i <= k < v@.len() ==> task_bounded(#[trigger] task_views(v@)[k]),
    decreases v@.len() - i,
{
    if i < v.len() {
        enc_task(out, &v[i]);
        enc_task_seq(out, v, i + 1);
        proof {
            assert(task_views(v@)[i as int] == v@[i as int]@);
            assert(out@ =~= old(out)@ + spec_enc_task_seq(task_views(v@), i as nat));
        }
    } else {
        proof {
            assert(out@ =~= old(out)@ + spec_enc_task_seq(task_views(v@), i as nat));
        }
    }
}

fn dec_task_seq(input: &[u8], pos: usize, n: u64) -> (r: Option<(Vec<Task>, usize)>)
    requires
        pos <= input@.len(),
    ensures
        match r {
            Some((v, end)) => pos <= end <= input@.len() && spec_dec_task_seq(
                input@.skip(pos as int),
                n,
            ) == Some((task_views(v@), end - pos)) && forall|k: int|
                0 <= k < v@.len() ==> (#[trigger] task_views(v@)[k]).wf(),
            None => spec_dec_task_seq(input@.skip(pos as int), n) is None,
        },
    decreases n,
{
    if n == 0 {
        let v: Vec<Task> = Vec::new();
        proof {
            assert(task_views(v@) =~= Seq::<TaskView>::empty());
        }
        Some((v, pos))
    } else {
        match dec_task(input, pos) {
            None => None,
            Some((t, p1)) => {
                proof {
                    assert(input@.skip(pos as int).skip(p1 - pos as int) =~= input@.skip(
                        p1 as int,
                    ));
                }
                match dec_task_seq(input, p1, n - 1) {
                    None => None,
                    Some((mut v, end)) => {
                        let ghost tail = v@;
                        let ghost tv = t@;
                        v.insert(0, t);
                        proof {
                            tail.insert_ensures(0, t);
                            assert(task_views(v@) =~= seq![tv] + task_views(tail));
                        }
                        Some((v, end))
                    },
                }
            },
        }
    }
}

/// Checks that a decoded task list is strictly ascending by identity.
fn tasks_ascending(v: &Vec<Task>) -> (b: bool)
    ensures
        b == sorted_keys(task_views(v@)),
{
    let ghost vs = task_views(v@);
    let n = v.len();
    if n == 0 {
        return true;
    }
    let mut i: usize = 1;
    while i < n
        invariant
            1 <= i <= n,
            vs == task_views(v@),
            n == v@.len(),
            vs.len() == v@.len(),
            forall|a: int, b: int|
                #![trigger vs[a].key(), vs[b].key()]
                0 <= a < b < i ==> vs[a].key() < vs[b].key(),
        decreases n - i,
    {
        let prev = v[i - 1].id;
        let here = v[i].id;
        assert(prev == vs[i as int - 1].key());
        assert(here == vs[i as int].key());
        if prev >= here {
            proof {
                if sorted_keys(vs) {
                    assert(vs[i as int - 1].key() < vs[i as int].key());
                }
            }
            return false;
        }
        assert forall|a: int, b: int|
            #![trigger vs[a].key(), vs[b].key()]
            0 <= a < b < i + 1 implies vs[a].key() < vs[b].key() by {
            if b == i {
                assert(vs[i as int - 1].key() < vs[i as int].key());
                if a < i - 1 {
                    assert(vs[a].key() < vs[i as int - 1].key());
                }
            }
        }
        i += 1;
    }
    true
}

/// The length bounds a task store must meet on the wire.
pub open spec fn tasks_store_bounded(v: TasksView) -> bool {
    &&& v.group_name.len() <= u64::MAX
    &&& v.tasks.len() <= u64::MAX
    &&& forall|k: int| 0 <= k < v.tasks.len() ==> task_bounded(#[trigger] v.tasks[k])
}

/// A task store: group identity, group name, task count, tasks in strictly
/// ascending identity order.
pub open spec fn spec_enc_tasks_store(v: TasksView) -> Seq<u8> {
    spec_enc_u128(v.id) + spec_enc_str(v.group_name) + spec_enc_u64(v.tasks.len() as u64)
        + spec_enc_task_seq(v.tasks, 0)
}

pub open spec fn spec_dec_tasks_store(s: Seq<u8>) -> Option<(TasksView, int)> {
    match spec_dec_u128(s) {
        None => None,
        Some((id, o1)) => match spec_dec_str(s.skip(o1)) {
            None => None,
            Some((group_name, d2)) => match spec_dec_u64(s.skip(o1 + d2)) {
                None => None,
                Some((n, d3)) => match spec_dec_task_seq(s.skip(o1 + d2 + d3), n) {
                    None => None,
                    Some((tasks, d4)) => if sorted_keys(tasks) {
                        Some((TasksView { id, group_name, tasks }, o1 + d2 + d3 + d4))
                    } else {
                        None
                    },
                },
            },
        },
    }
}

pub(crate) fn enc_tasks_store(out: &mut Vec<u8>, v: &Tasks)
    ensures
        final(out)@ == old(out)@ + spec_enc_tasks_store(v@),
        tasks_store_bounded(v@),
{
    enc_u128(out, v.id);
    enc_str(out, v.group_name.as_str());
    let n = v.tasks.len();
    enc_u64(out, n as u64);
    enc_task_seq(out, &v.tasks, 0);
    proof {
        assert(out@ =~= old(out)@ + spec_enc_tasks_store(v@));
    }
}

pub(crate) fn dec_tasks_store(input: &[u8], pos: usize) -> (r: Option<(Tasks, usize)>)
    requires
        pos <= input@.len(),
    ensures
        match r {
            Some((st, end)) => pos <= end <= input@.len() && st.wf() && spec_dec_tasks_store(
                input@.skip(pos as int),
            ) == Some((st@, end - pos)),
            None => spec_dec_tasks_store(input@.skip(pos as int)) is None,
        },
{
    let ghost s = input@.skip(pos as int);
    match dec_u128(input, pos) {
        None => None,
        Some((id, p1)) => {
            proof {
                assert(s.skip(p1 - pos as int) =~= input@.skip(p1 as int));
            }
            match dec_str(input, p1) {
                None => None,
                Some((group_name, p2)) => {
                    proof {
                        assert(s.skip(p2 - pos as int) =~= input@.skip(p2 as int));
                    }
                    match dec_u64(input, p2) {
                        None => None,
                        Some((n, p3)) => {
                            proof {
                                assert(s.skip(p3 - pos as int) =~= input@.skip(p3 as int));
                            }
                            match dec_task_seq(input, p3, n) {
                                None => None,
                                Some((tasks, p4)) => {
                                    if tasks_ascending(&tasks) {
                                        let st = Tasks { id, group_name, tasks };
                                        Some((st, p4))
                                    } else {
                                        None
                                    }
                                },
                            }
                        },
                    }
                },
            }
        },
    }
}

// --------------------------------------------------------------------- notes
/// The length bound a note must meet on the wire.
pub open spec fn note_bounded(t: NoteView) -> bool {
    t.content.len() <= u64::MAX
}

/// A note: identity, creation time, content.
pub open spec fn spec_enc_note(t: NoteView) -> Seq<u8> {
    spec_enc_u128(t.id) + spec_enc_i64(t.created) + spec_enc_str(t.content)
}

pub open spec fn spec_dec_note(s: Seq<u8>) -> Option<(NoteView, int)> {
    match spec_dec_u128(s) {
        None => None,
        Some((id, o1)) => match spec_dec_i64(s.skip(o1)) {
            None => None,
            Some((created, d2)) => match spec_dec_str(s.skip(o1 + d2)) {
                None => None,
                Some((content, d3)) => Some((NoteView { id, created, content }, o1 + d2 + d3)),
            },
        },
    }
}

pub(crate) fn enc_note(out: &mut Vec<u8>, t: &Note)
    ensures
        final(out)@ == old(out)@ + spec_enc_note(t@),
        note_bounded(t@),
{
    enc_u128(out, t.id);
    enc_i64(out, t.created);
    enc_str(out, t.content.as_str());
    proof {
        assert(out@ =~= old(out)@ + spec_enc_note(t@));
    }
}

pub(crate) fn dec_note(input: &[u8], pos: usize) -> (r: Option<(Note, usize)>)
    requires
        pos <= input@.len(),
    ensures
        match r {
            Some((t, end)) => pos <= end <= input@.len() && spec_dec_note(
                input@.skip(pos as int),
            ) == Some((t@, end - pos)),
            None => spec_dec_note(input@.skip(pos as int)) is None,
        },
{
    let ghost s = input@.skip(pos as int);
    match dec_u128(input, pos) {
        None => None,
        Some((id, p1)) => {
            proof {
                assert(s.skip(p1 - pos as int) =~= input@.skip(p1 as int));
            }
            match dec_i64(input, p1) {
                None => None,
                Some((created, p2)) => {
                    proof {
                        assert(s.skip(p2 - pos as int) =~= input@.skip(p2 as int));
                    }
                    match dec_str(input, p2) {
                        None => None,
                        Some((content, p3)) => Some((Note { id, created, content }, p3)),
                    }
                },
            }
        },
    }
}

/// The notes of a store from position `i` on.
pub open spec fn spec_enc_note_seq(s: Seq<NoteView>, i: nat) -> Seq<u8>
    decreases s.len() - i,
{
    if i >= s.len() {
        Seq::empty()
    } else {
        spec_enc_note(s[i as int]) + spec_enc_note_seq(s, i + 1)
    }
}

pub open spec fn spec_dec_note_seq(s: Seq<u8>, n: u64) -> Option<(Seq<NoteView>, int)>
    decreases n,
{
    if n == 0 {
        Some((Seq::empty(), 0int))
    } else {
        match spec_dec_note(s) {
            None => None,
            Some((t, k)) => match spec_dec_note_seq(s.skip(k), (n - 1) as u64) {
                None => None,
                Some((ts, m)) => Some((seq![t] + ts, k + m)),
            },
        }
    }
}

fn enc_note_seq(out: &mut Vec<u8>, v: &Vec<Note>, i: usize)
    requires
        i <= v@.len(),
    ensures
        final(out)@ == old(out)@ + spec_enc_note_seq(note_views(v@), i as nat),
        forall|k: int| i <= k < v@.len() ==> note_bounded(#[trigger] note_views(v@)[k]),
    decreases v@.len() - i,
{
    if i < v.len() {
        enc_note(out, &v[i]);
        enc_note_seq(out, v, i + 1);
        proof {
            assert(note_views(v@)[i as int] == v@[i as int]@);
            assert(out@ =~= old(out)@ + spec_enc_note_seq(note_views(v@), i as nat));
        }
    } else {
        proof {
            assert(out@ =~= old(out)@ + spec_enc_note_seq(note_views(v@), i as nat));
        }
    }
}

fn dec_note_seq(input: &[u8], pos: usize, n: u64) -> (r: Option<(Vec<Note>, usize)>)
    requires
        pos <= input@.len(),
    ensures
        match r {
            Some((v, end)) => pos <= end <= input@.len() && spec_dec_note_seq(
                input@.skip(pos as int),
                n,
            ) == Some((note_views(v@), end - pos)),
            None => spec_dec_note_seq(input@.skip(pos as int), n) is None,
        },
    decreases n,
{
    if n == 0 {
        let v: Vec<Note> = Vec::new();
        proof {
            assert(note_views(v@) =~= Seq::<NoteView>::empty());
        }
        Some((v, pos))
    } else {
        match dec_note(input, pos) {
            None => None,
            Some((t, p1)) => {
                proof {
                    assert(input@.skip(pos as int).skip(p1 - pos as int) =~= input@.skip(
                        p1 as int,
                    ));
                }
                match dec_note_seq(input, p1, n - 1) {
                    None => None,
                    Some((mut v, end)) => {
                        let ghost tail = v@;
                        let ghost tv = t@;
                        v.insert(0, t);
                        proof {
                            tail.insert_ensures(0, t);
                            assert(note_views(v@) =~= seq![tv] + note_views(tail));
                        }
                        Some((v, end))
                    },
                }
            },
        }
    }
}

/// Checks that a decoded note list is strictly ascending by identity.
fn notes_ascending(v: &Vec<Note>) -> (b: bool)
    ensures
        b == sorted_keys(note_views(v@)),
{
    let ghost vs = note_views(v@);
    let n = v.len();
    if n == 0 {
        return true;
    }
    let mut i: usize = 1;
    while i < n
        invariant
            1 <= i <= n,
            vs == note_views(v@),
            n == v@.len(),
            vs.len() == v@.len(),
            forall|a: int, b: int|
                #![trigger vs[a].key(), vs[b].key()]
                0 <= a < b < i ==> vs[a].key() < vs[b].key(),
        decreases n - i,
    {
        let prev = v[i - 1].id;
        let here = v[i].id;
        assert(prev == vs[i as int - 1].key());
        assert(here == vs[i as int].key());
        if prev >= here {
            proof {
                if sorted_keys(vs) {
                    assert(vs[i as int - 1].key() < vs[i as int].key());
                }
            }
            return false;
        }
        assert forall|a: int, b: int|
            #![trigger vs[a].key(), vs[b].key()]
            0 <= a < b < i + 1 implies vs[a].key() < vs[b].key() by {
            if b == i {
                assert(vs[i as int - 1].key() < vs[i as int].key());
                if a < i - 1 {
                    assert(vs[a].key() < vs[i as int - 1].key());
                }
            }
        }
        i += 1;
    }
    true
}

/// The length bounds a note store must meet on the wire.
pub open spec fn notes_store_bounded(v: NotesView) -> bool {
    &&& v.group_name.len() <= u64::MAX
    &&& v.notes.len() <= u64::MAX
    &&& forall|k: int| 0 <= k < v.notes.len() ==> note_bounded(#[trigger] v.notes[k])
}

/// A note store: group identity, group name, note count, notes in strictly
/// ascending identity order.
pub open spec fn spec_enc_notes_store(v: NotesView) -> Seq<u8> {
    spec_enc_u128(v.id) + spec_enc_str(v.group_name) + spec_enc_u64(v.notes.len() as u64)
        + spec_enc_note_seq(v.notes, 0)
}

pub open spec fn spec_dec_notes_store(s: Seq<u8>) -> Option<(NotesView, int)> {
    match spec_dec_u128(s) {
        None => None,
        Some((id, o1)) => match spec_dec_str(s.skip(o1)) {
            None => None,
            Some((group_name, d2)) => match spec_dec_u64(s.skip(o1 + d2)) {
                None => None,
                Some((n, d3)) => match spec_dec_note_seq(s.skip(o1 + d2 + d3), n) {
                    None => None,
                    Some((notes, d4)) => if sorted_keys(notes) {
                        Some((NotesView { id, group_name, notes }, o1 + d2 + d3 + d4))
                    } else {
                        None
                    },
                },
            },
        },
    }
}

pub(crate) fn enc_notes_store(out: &mut Vec<u8>, v: &Notes)
    ensures
        final(out)@ == old(out)@ + spec_enc_notes_store(v@),
        notes_store_bounded(v@),
{
    enc_u128(out, v.id);
    enc_str(out, v.group_name.as_str());
    let n = v.notes.len();
    enc_u64(out, n as u64);
    enc_note_seq(out, &v.notes, 0);
    proof {
        assert(out@ =~= old(out)@ + spec_enc_notes_store(v@));
    }
}

pub(crate) fn dec_notes_store(input: &[u8], pos: usize) -> (r: Option<(Notes, usize)>)
    requires
        pos <= input@.len(),
    ensures
        match r {
            Some((st, end)) => pos <= end <= input@.len() && st.wf() && spec_dec_notes_store(
                input@.skip(pos as int),
            ) == Some((st@, end - pos)),
            None => spec_dec_notes_store(input@.skip(pos as int)) is None,
        },
{
    let ghost s = input@.skip(pos as int);
    match dec_u128(input, pos) {
        None => None,
        Some((id, p1)) => {
            proof {
                assert(s.skip(p1 - pos as int) =~= input@.skip(p1 as int));
            }
            match dec_str(input, p1) {
                None => None,
                Some((group_name, p2)) => {
                    proof {
                        assert(s.skip(p2 - pos as int) =~= input@.skip(p2 as int));
                    }
                    match dec_u64(input, p2) {
                        None => None,
                        Some((n, p3)) => {
                            proof {
                                assert(s.skip(p3 - pos as int) =~= input@.skip(p3 as int));
                            }
                            match dec_note_seq(input, p3, n) {
                                None => None,
                                Some((notes, p4)) => {
                                    if notes_ascending(&notes) {
                                        let st = Notes { id, group_name, notes };
                                        Some((st, p4))
                                    } else {
                                        None
                                    }
                                },
                            }
                        },
                    }
                },
            }
        },
    }
}

// ------------------------------------------------- round trips, record level
/// Decoding the encoding of a well-formed task yields the task.
#[verifier::rlimit(50)]
pub proof fn lemma_rt_task(t: TaskView, rest: Seq<u8>)
    requires
        t.wf(),
        task_bounded(t),
    ensures
        spec_dec_task(spec_enc_task(t) + rest) == Some((t, spec_enc_task(t).len() as int)),
{
    let e1 = spec_enc_u128(t.id);
    let e2 = spec_enc_u32(t.priority);
    let e3 = spec_enc_i64(t.created);
    let e4 = spec_enc_opt_i64(t.due);
    let e5 = spec_enc_str(t.content);
    let e6 = spec_enc_ttag(t.task_type);
    let e7 = spec_enc_rtag(t.repeat);
    let e8 = spec_enc_id_list(t.depends);
    let s = spec_enc_task(t) + rest;
    let r8 = e8 + rest;
    let r7 = e7 + r8;
    let r6 = e6 + r7;
    let r5 = e5 + r6;
    let r4 = e4 + r5;
    let r3 = e3 + r4;
    let r2 = e2 + r3;
    lemma_rt_u128(t.id, r2);
    lemma_rt_u32(t.priority, r3);
    lemma_rt_i64(t.created, r4);
    lemma_rt_opt_i64(t.due, r5);
    lemma_rt_str(t.content, r6);
    lemma_rt_ttag(t.task_type, r7);
    lemma_rt_rtag(t.repeat, r8);
    lemma_rt_id_list(t.depends, rest);
    let o1 = 16int;
    let o2 = o1 + 4;
    let o3 = o2 + 8;
    let o4 = o3 + e4.len() as int;
    let o5 = o4 + e5.len() as int;
    let o6 = o5 + 1;
    let o7 = o6 + 1;
    assert(s =~= e1 + r2);
    assert(s.skip(o1) =~= r2);
    vstd::seq_lib::lemma_seq_skip_of_skip(s, o1, 4);
    assert(r2.skip(4) =~= r3);
    assert(s.skip(o2) == r3);
    vstd::seq_lib::lemma_seq_skip_of_skip(s, o2, 8);
    assert(r3.skip(8) =~= r4);
    assert(s.skip(o3) == r4);
    vstd::seq_lib::lemma_seq_skip_of_skip(s, o3, e4.len() as int);
    assert(r4.skip(e4.len() as int) =~= r5);
    assert(s.skip(o4) == r5);
    vstd::seq_lib::lemma_seq_skip_of_skip(s, o4, e5.len() as int);
    assert(r5.skip(e5.len() as int) =~= r6);
    assert(s.skip(o5) == r6);
    vstd::seq_lib::lemma_seq_skip_of_skip(s, o5, 1);
    assert(r6.skip(1) =~= r7);
    assert(s.skip(o6) == r7);
    vstd::seq_lib::lemma_seq_skip_of_skip(s, o6, 1);
    assert(r7.skip(1) =~= r8);
    assert(s.skip(o7) == r8);
}

/// Decoding the encoding of a note yields the note.
pub proof fn lemma_rt_note(t: NoteView, rest: Seq<u8>)
    requires
        note_bounded(t),
    ensures
        spec_dec_note(spec_enc_note(t) + rest) == Some((t, spec_enc_note(t).len() as int)),
{
    let e1 = spec_enc_u128(t.id);
    let e2 = spec_enc_i64(t.created);
    let e3 = spec_enc_str(t.content);
    let s = spec_enc_note(t) + rest;
    let r3 = e3 + rest;
    let r2 = e2 + r3;
    lemma_rt_u128(t.id, r2);
    lemma_rt_i64(t.created, r3);
    lemma_rt_str(t.content, rest);
    assert(s =~= e1 + r2);
    assert(s.skip(16) =~= r2);
    vstd::seq_lib::lemma_seq_skip_of_skip(s, 16, 8);
    assert(r2.skip(8) =~= r3);
    assert(s.skip(24int) == r3);
}

/// Decoding the encoded tasks from position `i` on yields exactly those
/// tasks.
pub proof fn lemma_rt_task_seq(s: Seq<TaskView>, i: nat, rest: Seq<u8>)
    requires
        i <= s.len(),
        s.len() <= u64::MAX,
        forall|k: int| 0 <= k < s.len() ==> (#[trigger] s[k]).wf(),
        forall|k: int| 0 <= k < s.len() ==> task_bounded(#[trigger] s[k]),
    ensures
        spec_dec_task_seq(spec_enc_task_seq(s, i) + rest, (s.len() - i) as u64) == Some(
            (s.skip(i as int), spec_enc_task_seq(s, i).len() as int),
        ),
    decreases s.len() - i,
{
    if i == s.len() {
        assert(spec_enc_task_seq(s, i) + rest =~= rest);
        assert(s.skip(i as int) =~= Seq::<TaskView>::empty());
    } else {
        let t = s[i as int];
        let tail = spec_enc_task_seq(s, i + 1);
        assert(spec_enc_task_seq(s, i) + rest =~= spec_enc_task(t) + (tail + rest));
        lemma_rt_task(t, tail + rest);
        assert((spec_enc_task(t) + (tail + rest)).skip(spec_enc_task(t).len() as int) =~= tail
            + rest);
        lemma_rt_task_seq(s, i + 1, rest);
        assert(seq![t] + s.skip(i as int + 1) =~= s.skip(i as int));
    }
}

/// Decoding the encoded notes from position `i` on yields exactly those
/// notes.
pub proof fn lemma_rt_note_seq(s: Seq<NoteView>, i: nat, rest: Seq<u8>)
    requires
        i <= s.len(),
        s.len() <= u64::MAX,
        forall|k: int| 0 <= k < s.len() ==> note_bounded(#[trigger] s[k]),
    ensures
        spec_dec_note_seq(spec_enc_note_seq(s, i) + rest, (s.len() - i) as u64) == Some(
            (s.skip(i as int), spec_enc_note_seq(s, i).len() as int),
        ),
    decreases s.len() - i,
{
    if i == s.len() {
        assert(spec_enc_note_seq(s, i) + rest =~= rest);
        assert(s.skip(i as int) =~= Seq::<NoteView>::empty());
    } else {
        let t = s[i as int];
        let tail = spec_enc_note_seq(s, i + 1);
        assert(spec_enc_note_seq(s, i) + rest =~= spec_enc_note(t) + (tail + rest));
        lemma_rt_note(t, tail + rest);
        assert((spec_enc_note(t) + (tail + rest)).skip(spec_enc_note(t).len() as int) =~= tail
            + rest);
        lemma_rt_note_seq(s, i + 1, rest);
        assert(seq![t] + s.skip(i as int + 1) =~= s.skip(i as int));
    }
}

/// Decoding the encoding of a well-formed task store yields the store.
pub proof fn lemma_rt_tasks_store(v: TasksView, rest: Seq<u8>)
    requires
        v.wf(),
        tasks_store_bounded(v),
    ensures
        spec_dec_tasks_store(spec_enc_tasks_store(v) + rest) == Some(
            (v, spec_enc_tasks_store(v).len() as int),
        ),
{
    let e1 = spec_enc_u128(v.id);
    let e2 = spec_enc_str(v.group_name);
    let e3 = spec_enc_u64(v.tasks.len() as u64);
    let e4 = spec_enc_task_seq(v.tasks, 0);
    let s = spec_enc_tasks_store(v) + rest;
    let r4 = e4 + rest;
    let r3 = e3 + r4;
    let r2 = e2 + r3;
    lemma_rt_u128(v.id, r2);
    lemma_rt_str(v.group_name, r3);
    lemma_rt_u64(v.tasks.len() as u64, r4);
    lemma_rt_task_seq(v.tasks, 0, rest);
    assert(v.tasks.skip(0) =~= v.tasks);
    let o1 = 16int;
    let o2 = o1 + e2.len() as int;
    let o3 = o2 + 8;
    assert(s =~= e1 + r2);
    assert(s.skip(o1) =~= r2);
    vstd::seq_lib::lemma_seq_skip_of_skip(s, o1, e2.len() as int);
    assert(r2.skip(e2.len() as int) =~= r3);
    assert(s.skip(o2) == r3);
    vstd::seq_lib::lemma_seq_skip_of_skip(s, o2, 8);
    assert(r3.skip(8) =~= r4);
    assert(s.skip(o3) == r4);
}

/// Decoding the encoding of a well-formed note store yields the store.
pub proof fn lemma_rt_notes_store(v: NotesView, rest: Seq<u8>)
    requires
        v.wf(),
        notes_store_bounded(v),
    ensures
        spec_dec_notes_store(spec_enc_notes_store(v) + rest) == Some(
            (v, spec_enc_notes_store(v).len() as int),
        ),
{
    let e1 = spec_enc_u128(v.id);
    let e2 = spec_enc_str(v.group_name);
    let e3 = spec_enc_u64(v.notes.len() as u64);
    let e4 = spec_enc_note_seq(v.notes, 0);
    let s = spec_enc_notes_store(v) + rest;
    let r4 = e4 + rest;
    let r3 = e3 + r4;
    let r2 = e2 + r3;
    lemma_rt_u128(v.id, r2);
    lemma_rt_str(v.group_name, r3);
    lemma_rt_u64(v.notes.len() as u64, r4);
    lemma_rt_note_seq(v.notes, 0, rest);
    assert(v.notes.skip(0) =~= v.notes);
    let o1 = 16int;
    let o2 = o1 + e2.len() as int;
    let o3 = o2 + 8;
    assert(s =~= e1 + r2);
    assert(s.skip(o1) =~= r2);
    vstd::seq_lib::lemma_seq_skip_of_skip(s, o1, e2.len() as int);
    assert(r2.skip(e2.len() as int) =~= r3);
    assert(s.skip(o2) == r3);
    vstd::seq_lib::lemma_seq_skip_of_skip(s, o2, 8);
    assert(r3.skip(8) =~= r4);
    assert(s.skip(o3) == r4);
}

} // verus!
