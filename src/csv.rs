use vstd::prelude::*;

use crate::text::{parse_u32, parse_u32_spec, trim, trim_bounds};

verus! {

/// Whether `c` ends a CSV field: a line break or a comma.
pub open spec fn is_separator(c: char) -> bool {
    c == '\n' || c == ','
}

/// The fields of `s`: the pieces between line breaks and commas, in order.
/// There is always one field more than there are separators.
pub open spec fn csv_fields(s: Seq<char>) -> Seq<Seq<char>>
    decreases s.len(),
{
    if s.len() == 0 {
        seq![Seq::empty()]
    } else {
        let f = csv_fields(s.drop_last());
        if is_separator(s.last()) {
            f.push(Seq::empty())
        } else {
            f.update(f.len() - 1, f.last().push(s.last()))
        }
    }
}

/// The values of `fields` once each is trimmed: blank fields are skipped, the
/// others must each be a decimal `u32`, and if one is not there is no result.
pub open spec fn field_values(fields: Seq<Seq<char>>) -> Option<Seq<u32>>
    decreases fields.len(),
{
    if fields.len() == 0 {
        Some(Seq::empty())
    } else {
        match field_values(fields.drop_last()) {
            None => None,
            Some(v) => {
                let t = trim(fields.last());
                if t.len() == 0 {
                    Some(v)
                } else {
                    match parse_u32_spec(t) {
                        Some(x) => Some(v.push(x)),
                        None => None,
                    }
                }
            },
        }
    }
}

/// The tile values of a CSV payload, in written order, or none if any
/// non-blank field is not a decimal `u32`.
pub open spec fn csv_values(s: Seq<char>) -> Option<Seq<u32>> {
    field_values(csv_fields(s))
}

proof fn lemma_fields_nonempty(s: Seq<char>)
    ensures
        csv_fields(s).len() >= 1,
    decreases s.len(),
{
    if s.len() > 0 {
        lemma_fields_nonempty(s.drop_last());
    }
}

/// Extending a text past a separator keeps its fields up to that separator.
proof fn lemma_fields_prefix(s: Seq<char>, i: int, k: int)
    requires
        0 <= i < k <= s.len(),
        is_separator(s[i]),
    ensures
        csv_fields(s.take(k)).len() > csv_fields(s.take(i)).len(),
        csv_fields(s.take(k)).take(csv_fields(s.take(i)).len() as int) == csv_fields(s.take(i)),
    decreases k - i,
{
    let f = csv_fields(s.take(i));
    lemma_fields_nonempty(s.take(i));
    if k == i + 1 {
        assert(s.take(k).drop_last() =~= s.take(i));
        assert(csv_fields(s.take(k)).take(f.len() as int) =~= f);
    } else {
        lemma_fields_prefix(s, i, k - 1);
        assert(s.take(k).drop_last() =~= s.take(k - 1));
        lemma_fields_nonempty(s.take(k - 1));
        let g = csv_fields(s.take(k - 1));
        assert(csv_fields(s.take(k)).take(f.len() as int) =~= g.take(f.len() as int));
    }
}

/// A failure among the first fields is a failure of the whole.
proof fn lemma_values_fail_extends(g: Seq<Seq<char>>, m: int)
    requires
        0 <= m <= g.len(),
        field_values(g.take(m)) is None,
    ensures
        field_values(g) is None,
    decreases g.len(),
{
    if g.len() == m {
        assert(g.take(m) =~= g);
    } else {
        assert(g.drop_last().take(m) =~= g.take(m));
        lemma_values_fail_extends(g.drop_last(), m);
    }
}

proof fn lemma_values_fail_at(fields: Seq<Seq<char>>, i: int)
    requires
        0 <= i < fields.len(),
        trim(fields[i]).len() > 0,
        parse_u32_spec(trim(fields[i])) is None,
    ensures
        field_values(fields) is None,
    decreases fields.len(),
{
    if i < fields.len() - 1 {
        assert(fields.drop_last()[i] == fields[i]);
        lemma_values_fail_at(fields.drop_last(), i);
    }
}

/// One bad field fails the whole payload: if a non-blank field of `s` is not a
/// decimal `u32`, no value of `s` is returned, not even those before it.
pub proof fn csv_fails_fast(s: Seq<char>, i: int)
    requires
        0 <= i < csv_fields(s).len(),
        trim(csv_fields(s)[i]).len() > 0,
        parse_u32_spec(trim(csv_fields(s)[i])) is None,
    ensures
        csv_values(s) is None,
{
    lemma_values_fail_at(csv_fields(s), i);
}

/// Decodes a CSV tile payload into raw tile values, in written order.
/// Any non-blank field that is not a decimal `u32` fails the whole payload.
pub fn parse_csv(s: &Vec<char>) -> (r: Option<Vec<u32>>)
    ensures
        match r {
            Some(v) => csv_values(s@) == Some(v@),
            None => csv_values(s@) is None,
        },
{
    let n = s.len();
    let mut out: Vec<u32> = Vec::new();
    let mut start: usize = 0;
    let mut i: usize = 0;
    proof {
        assert(s@.take(0) =~= Seq::<char>::empty());
        assert(csv_fields(s@.take(0)).drop_last() =~= Seq::<Seq<char>>::empty());
    }
    while i < n
        invariant
            n == s@.len(),
            start <= i <= n,
            csv_fields(s@.take(i as int)).len() >= 1,
            csv_fields(s@.take(i as int)).last() == s@.subrange(start as int, i as int),
            field_values(csv_fields(s@.take(i as int)).drop_last()) == Some(out@),
        decreases n - i,
    {
        let ghost f = csv_fields(s@.take(i as int));
        assert(s@.take(i + 1).drop_last() =~= s@.take(i as int));
        if s[i] == '\n' || s[i] == ',' {
            let (a, b) = trim_bounds(s, start, i);
            assert(csv_fields(s@.take(i + 1)).drop_last() =~= f);
            assert(f =~= f.drop_last().push(f.last()));
            if a < b {
                match parse_u32(s, a, b) {
                    Some(x) => {
                        out.push(x);
                    },
                    None => {
                        proof {
                            lemma_fields_prefix(s@, i as int, n as int);
                            assert(s@.take(n as int) =~= s@);
                            lemma_values_fail_extends(csv_fields(s@), f.len() as int);
                        }
                        return None;
                    },
                }
            }
            start = i + 1;
            proof {
                lemma_fields_nonempty(s@.take(i + 1));
            }
            assert(csv_fields(s@.take(i + 1)).last() =~= s@.subrange(start as int, i + 1));
        } else {
            proof {
                let g = csv_fields(s@.take(i + 1));
                assert(g.drop_last() =~= f.drop_last());
                assert(g.last() =~= s@.subrange(start as int, i + 1));
            }
        }
        i = i + 1;
    }
    let ghost f = csv_fields(s@.take(n as int));
    assert(s@.take(n as int) =~= s@);
    assert(f =~= f.drop_last().push(f.last()));
    let (a, b) = trim_bounds(s, start, n);
    if a < b {
        match parse_u32(s, a, b) {
            Some(x) => {
                out.push(x);
            },
            None => {
                return None;
            },
        }
    }
    Some(out)
}

} // verus!
