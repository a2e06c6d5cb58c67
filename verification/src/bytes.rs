//! Byte-level text utilities shared by the solvers: splitting a text
//! into separator-delimited segments, trimming surrounding whitespace,
//! and reading decimal numbers.

use vstd::prelude::*;

verus! {

/// The ASCII whitespace bytes that surrounding input text may carry.
pub open spec fn is_space(b: u8) -> bool {
    b == (' ' as u8) || b == ('\n' as u8) || b == ('\r' as u8) || b == ('\t' as u8)
}

/// The ASCII decimal digits.
pub open spec fn is_digit(b: u8) -> bool {
    ('0' as u8) <= b && b <= ('9' as u8)
}

pub open spec fn all_digits(s: Seq<u8>) -> bool {
    forall|i: int| 0 <= i < s.len() ==> is_digit(#[trigger] s[i])
}

/// The value of a digit string read in base ten.
pub open spec fn digits_value(s: Seq<u8>) -> nat
    decreases s.len(),
{
    if s.len() == 0 {
        0
    } else {
        digits_value(s.drop_last()) * 10 + (s.last() - ('0' as u8)) as nat
    }
}

/// A decimal number field: defined exactly when the bytes are one or
/// more digits.
pub open spec fn spec_parse_num(s: Seq<u8>) -> Option<nat> {
    if s.len() > 0 && all_digits(s) {
        Some(digits_value(s))
    } else {
        None
    }
}

/// Reads the decimal number that stands in `v` from index `from` to
/// the end. Returns `None` when the field is not a plain digit string
/// or its value exceeds `limit`.
pub fn parse_num_limited(v: &Vec<u8>, from: usize, limit: u64) -> (r: Option<u64>)
    requires
        from <= v.len(),
    ensures
        (match r {
            Some(x) => spec_parse_num(v@.skip(from as int)) == Some(x as nat) && x <= limit,
            None => (match spec_parse_num(v@.skip(from as int)) {
                Some(n) => n > limit,
                None => true,
            }),
        }),
{
    let ghost s = v@.skip(from as int);
    if from == v.len() {
        return None;
    }
    let mut i: usize = from;
    let mut val: u64 = 0;
    let mut too_big: bool = false;
    while i < v.len()
        invariant
            from <= i <= v.len(),
            from < v.len(),
            s == v@.skip(from as int),
            all_digits(s.take(i - from)),
            (if too_big {
                digits_value(s.take(i - from)) > limit
            } else {
                val as nat == digits_value(s.take(i - from)) && val <= limit
            }),
        decreases v.len() - i,
    {
        let b = v[i];
        if !(b >= ('0' as u8) && b <= ('9' as u8)) {
            proof {
                assert(s[i - from] == v@[i as int]);
                assert(!all_digits(s));
            }
            return None;
        }
        proof {
            assert(s.take(i + 1 - from).drop_last() =~= s.take(i - from));
            assert(s.take(i + 1 - from).last() == v@[i as int]);
        }
        if !too_big {
            let d = (b - ('0' as u8)) as u64;
            let nv: u128 = (val as u128) * 10 + (d as u128);
            if nv > limit as u128 {
                too_big = true;
            } else {
                val = nv as u64;
            }
        }
        i += 1;
    }
    proof {
        assert(s.take(v.len() - from) =~= s);
    }
    if too_big {
        None
    } else {
        Some(val)
    }
}

/// The text with trailing whitespace removed.
pub open spec fn trim_end_spec(s: Seq<u8>) -> Seq<u8>
    decreases s.len(),
{
    if s.len() > 0 && is_space(s.last()) {
        trim_end_spec(s.drop_last())
    } else {
        s
    }
}

/// The text with leading whitespace removed.
pub open spec fn trim_start_spec(s: Seq<u8>) -> Seq<u8>
    decreases s.len(),
{
    if s.len() > 0 && is_space(s.first()) {
        trim_start_spec(s.drop_first())
    } else {
        s
    }
}

/// The text with whitespace removed at both ends.
pub open spec fn spec_trim(s: Seq<u8>) -> Seq<u8> {
    trim_start_spec(trim_end_spec(s))
}

fn space_byte(b: u8) -> (r: bool)
    ensures
        r == is_space(b),
{
    b == (' ' as u8) || b == ('\n' as u8) || b == ('\r' as u8) || b == ('\t' as u8)
}

/// A copy of `v` with whitespace removed at both ends.
pub fn trim_bytes(v: &Vec<u8>) -> (r: Vec<u8>)
    ensures
        r@ == spec_trim(v@),
{
    let mut end: usize = v.len();
    proof {
        assert(v@.take(v.len() as int) =~= v@);
    }
    while end > 0 && space_byte(v[end - 1])
        invariant
            end <= v.len(),
            trim_end_spec(v@) == trim_end_spec(v@.take(end as int)),
        decreases end,
    {
        proof {
            assert(v@.take(end as int).last() == v@[end - 1]);
            assert(v@.take(end as int).drop_last() =~= v@.take(end - 1));
        }
        end -= 1;
    }
    let ghost t = v@.take(end as int);
    proof {
        if end > 0 {
            assert(t.last() == v@[end - 1]);
        }
        assert(trim_end_spec(t) == t);
    }
    let mut start: usize = 0;
    proof {
        assert(t.skip(0) =~= t);
    }
    while start < end && space_byte(v[start])
        invariant
            start <= end <= v.len(),
            t == v@.take(end as int),
            trim_end_spec(v@) == t,
            spec_trim(v@) == trim_start_spec(t.skip(start as int)),
        decreases end - start,
    {
        proof {
            assert(t.skip(start as int).first() == v@[start as int]);
            assert(t.skip(start as int).drop_first() =~= t.skip(start + 1));
        }
        start += 1;
    }
    proof {
        if start < end {
            assert(t.skip(start as int).first() == v@[start as int]);
        }
        assert(trim_start_spec(t.skip(start as int)) == t.skip(start as int));
    }
    let mut r: Vec<u8> = Vec::new();
    let mut j: usize = start;
    while j < end
        invariant
            start <= j <= end <= v.len(),
            r@ == v@.subrange(start as int, j as int),
        decreases end - j,
    {
        r.push(v[j]);
        proof {
            assert(r@ =~= v@.subrange(start as int, j + 1));
        }
        j += 1;
    }
    proof {
        assert(v@.subrange(start as int, end as int) =~= t.skip(start as int));
    }
    r
}

/// The segments of `s` delimited by the separator byte: splitting the
/// empty text yields one empty segment, and each separator ends the
/// current segment and opens a new one.
pub open spec fn spec_split(s: Seq<u8>, sep: u8) -> Seq<Seq<u8>>
    decreases s.len(),
{
    if s.len() == 0 {
        seq![Seq::<u8>::empty()]
    } else if s.last() == sep {
        spec_split(s.drop_last(), sep).push(Seq::<u8>::empty())
    } else {
        let r = spec_split(s.drop_last(), sep);
        r.update(r.len() - 1, r.last().push(s.last()))
    }
}

pub proof fn lemma_spec_split_nonempty(s: Seq<u8>, sep: u8)
    ensures
        spec_split(s, sep).len() >= 1,
    decreases s.len(),
{
    if s.len() > 0 {
        lemma_spec_split_nonempty(s.drop_last(), sep);
    }
}

/// Splits `v` at every occurrence of the separator byte.
pub fn split_bytes(v: &Vec<u8>, sep: u8) -> (r: Vec<Vec<u8>>)
    ensures
        r.deep_view() == spec_split(v@, sep),
{
    let mut done: Vec<Vec<u8>> = Vec::new();
    let mut cur: Vec<u8> = Vec::new();
    let mut i: usize = 0;
    while i < v.len()
        invariant
            i <= v.len(),
            done.deep_view().push(cur@) == spec_split(v@.take(i as int), sep),
        decreases v.len() - i,
    {
        proof {
            assert(v@.take(i + 1).drop_last() =~= v@.take(i as int));
            assert(v@.take(i + 1).last() == v@[i as int]);
            lemma_spec_split_nonempty(v@.take(i as int), sep);
        }
        let b = v[i];
        if b == sep {
            let ghost old_done = done.deep_view();
            let ghost old_cur = cur@;
            done.push(cur);
            cur = Vec::new();
            proof {
                assert(done.deep_view() =~~= old_done.push(old_cur));
                assert(done.deep_view().push(cur@) =~~= spec_split(v@.take(i + 1), sep));
            }
        } else {
            let ghost old_cur = cur@;
            cur.push(b);
            proof {
                let r = spec_split(v@.take(i as int), sep);
                assert(done.deep_view().push(cur@) =~~= r.update(
                    r.len() - 1,
                    r.last().push(v@[i as int]),
                ));
            }
        }
        i += 1;
    }
    proof {
        assert(v@.take(v.len() as int) =~= v@);
    }
    done.push(cur);
    proof {
        assert(done.deep_view() =~~= spec_split(v@, sep));
    }
    done
}

} // verus!
