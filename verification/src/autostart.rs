//! The "start at login" entry: the command line stored under the `Run` key, and
//! reading the stored value back out of the registry's buffer.
use vstd::prelude::*;

verus! {

/// The command stored for the executable at `path`: the path in double quotes.
pub fn run_entry_value(path: &str) -> (r: String)
    ensures
        r@ == seq!['"'] + path@ + seq!['"'],
{
    let mut s = String::new();
    crate::text::string_push(&mut s, '"');
    s.append(path);
    crate::text::string_push(&mut s, '"');
    assert(s@ =~= seq!['"'] + path@ + seq!['"']);
    s
}

/// Position of the first NUL of `s`, if there is one.
pub open spec fn first_nul(s: Seq<u16>) -> Option<int>
    decreases s.len(),
{
    if s.len() == 0 {
        None
    } else {
        match first_nul(s.drop_last()) {
            Some(i) => Some(i),
            None => if s.last() == 0 {
                Some(s.len() - 1)
            } else {
                None
            },
        }
    }
}

/// Where the stored text ends: at the first NUL among the `size_bytes / 2` units
/// the registry reported (as far as `buf` reaches), else after all of them.
pub open spec fn run_value_end(buf: Seq<u16>, size_bytes: u32) -> int {
    let len = (size_bytes / 2) as int;
    let scanned = if len <= buf.len() {
        buf.take(len)
    } else {
        buf
    };
    match first_nul(scanned) {
        Some(i) => i,
        None => len,
    }
}

/// The UTF-16 units of the stored text, read out of the buffer the registry filled
/// (`size_bytes` is the size it reported); `None` when the text would end beyond
/// the buffer.
pub fn run_value_units(buf: &[u16], size_bytes: u32) -> (r: Option<Vec<u16>>)
    ensures
        run_value_end(buf@, size_bytes) <= buf@.len() ==> (r matches Some(v) && v@ == buf@.take(
            run_value_end(buf@, size_bytes),
        )),
        run_value_end(buf@, size_bytes) > buf@.len() ==> r is None,
{
    let len = (size_bytes / 2) as usize;
    let limit = if len <= buf.len() {
        len
    } else {
        buf.len()
    };
    let ghost scanned = buf@.take(limit as int);
    assert(scanned == if len <= buf@.len() { buf@.take(len as int) } else { buf@ }) by {
        if len > buf@.len() {
            assert(buf@.take(limit as int) =~= buf@);
        }
    }
    let mut found = false;
    let mut end = len;
    let mut i: usize = 0;
    while i < limit && !found
        invariant
            limit <= buf@.len(),
            scanned == buf@.take(limit as int),
            i <= limit,
            !found ==> end == len && first_nul(scanned.take(i as int)) is None,
            found ==> first_nul(scanned) == Some(end as int),
        decreases limit - i + if found { 0int } else { 1int },
    {
        assert(scanned.take(i + 1).drop_last() =~= scanned.take(i as int));
        if buf[i] == 0 {
            found = true;
            end = i;
            proof {
                lemma_first_nul_prefix(scanned, i as int + 1);
            }
        } else {
            i = i + 1;
        }
    }
    proof {
        if !found {
            assert(scanned.take(limit as int) =~= scanned);
        }
    }
    if end > buf.len() {
        return None;
    }
    let mut out: Vec<u16> = Vec::new();
    let mut k: usize = 0;
    while k < end
        invariant
            end <= buf@.len(),
            k <= end,
            out@ == buf@.take(k as int),
        decreases end - k,
    {
        out.push(buf[k]);
        assert(out@ =~= buf@.take(k + 1));
        k = k + 1;
    }
    Some(out)
}

/// A NUL found in a prefix is the first NUL of the whole.
proof fn lemma_first_nul_prefix(s: Seq<u16>, n: int)
    requires
        0 <= n <= s.len(),
        first_nul(s.take(n)) is Some,
    ensures
        first_nul(s) == first_nul(s.take(n)),
    decreases s.len() - n,
{
    if n < s.len() {
        assert(s.take(n + 1).drop_last() =~= s.take(n));
        lemma_first_nul_prefix(s, n + 1);
    } else {
        assert(s.take(n) =~= s);
    }
}

} // verus!
