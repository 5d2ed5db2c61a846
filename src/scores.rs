//! The high-score table: `(name, score)` records, best first, at most ten.
use vstd::prelude::*;

verus! {

/// How many records the table keeps.
pub const MAX_HIGH_SCORES: usize = 10;

/// The index of the first record of `s` whose score is below `score`, or the
/// length of `s` where there is none.
pub open spec fn first_below(s: Seq<(String, i32)>, score: i32) -> int
    decreases s.len(),
{
    if s.len() == 0 {
        0
    } else if s[0].1 < score {
        0
    } else {
        1 + first_below(s.drop_first(), score)
    }
}

/// The records ordered by descending score, records of equal score in their
/// input order: each one, taken in turn, goes after every record placed
/// so far with a score at least its own.
pub open spec fn ranked(s: Seq<(String, i32)>) -> Seq<(String, i32)>
    decreases s.len(),
{
    if s.len() == 0 {
        s
    } else {
        let r = ranked(s.drop_last());
        r.insert(first_below(r, s.last().1), s.last())
    }
}

/// Scores never increase from one record to the next.
pub open spec fn best_first(s: Seq<(String, i32)>) -> bool {
    forall|i: int, j: int| 0 <= i < j < s.len() ==> #[trigger] s[i].1 >= #[trigger] s[j].1
}

proof fn lemma_first_below(s: Seq<(String, i32)>, score: i32)
    ensures
        0 <= first_below(s, score) <= s.len(),
        forall|i: int| 0 <= i < first_below(s, score) ==> #[trigger] s[i].1 >= score,
        first_below(s, score) < s.len() ==> s[first_below(s, score)].1 < score,
    decreases s.len(),
{
    if s.len() > 0 && s[0].1 >= score {
        lemma_first_below(s.drop_first(), score);
        assert forall|i: int| 0 <= i < first_below(s, score) implies #[trigger] s[i].1 >= score by {
            if i > 0 {
                assert(s[i] == s.drop_first()[i - 1]);
            }
        }
    }
}

/// Ranking keeps every record and orders them best first.
pub proof fn lemma_ranked_best_first(s: Seq<(String, i32)>)
    ensures
        ranked(s).len() == s.len(),
        best_first(ranked(s)),
    decreases s.len(),
{
    if s.len() > 0 {
        let r = ranked(s.drop_last());
        let e = s.last();
        lemma_ranked_best_first(s.drop_last());
        lemma_first_below(r, e.1);
        let p = first_below(r, e.1);
        let t = r.insert(p, e);
        assert forall|i: int, j: int| 0 <= i < j < t.len() implies #[trigger] t[i].1 >= #[trigger] t[j].1 by {
            if j < p {
            } else if j == p {
                assert(r[i].1 >= e.1);
            } else if i < p {
                assert(t[j] == r[j - 1]);
            } else if i == p {
                assert(t[j] == r[j - 1]);
                assert(r[p].1 < e.1);
                if j - 1 > p {
                    assert(r[p].1 >= r[j - 1].1);
                }
            } else {
                assert(t[i] == r[i - 1] && t[j] == r[j - 1]);
            }
        }
    }
}

/// Puts `e` after every record of the best-first table with a score at
/// least its own.
fn insert_ranked(table: &mut Vec<(String, i32)>, e: (String, i32))
    ensures
        final(table)@ == old(table)@.insert(first_below(old(table)@, e.1), e),
{
    let ghost s = table@;
    let mut p: usize = 0;
    assert(s.subrange(0, s.len() as int) =~= s);
    while p < table.len() && table[p].1 >= e.1
        invariant
            table@ == s,
            p <= s.len(),
            first_below(s, e.1) == p + first_below(s.subrange(p as int, s.len() as int), e.1),
        decreases table.len() - p,
    {
        let ghost rest = s.subrange(p as int, s.len() as int);
        assert(rest.drop_first() =~= s.subrange(p + 1, s.len() as int));
        p = p + 1;
    }
    proof {
        let rest = s.subrange(p as int, s.len() as int);
        if p < s.len() {
            assert(rest[0] == s[p as int]);
        }
    }
    table.insert(p, e);
}

/// Adds the record `(name, score)` to the table, orders the table by
/// descending score (records of equal score keep their order, the new one
/// last among them) and keeps the first ten.
pub fn record_high_score(table: &mut Vec<(String, i32)>, name: String, score: i32)
    ensures
        final(table)@.len() <= MAX_HIGH_SCORES,
        best_first(final(table)@),
        final(table)@ == ({
            let r = ranked(old(table)@.push((name, score)));
            if r.len() > MAX_HIGH_SCORES { r.take(MAX_HIGH_SCORES as int) } else { r }
        }),
{
    let ghost all = table@.push((name, score));
    table.push((name, score));
    let mut out: Vec<(String, i32)> = Vec::new();
    let ghost n = all.len();
    while table.len() > 0
        invariant
            table@ == all.subrange(n - table.len(), n as int),
            table.len() <= n,
            n == all.len(),
            out@ == ranked(all.take(n - table.len())),
        decreases table.len(),
    {
        let ghost k = n - table.len();
        let e = table.remove(0);
        proof {
            assert(all.take(k + 1).drop_last() =~= all.take(k));
            assert(all[k] == e);
        }
        insert_ranked(&mut out, e);
        assert(table@ =~= all.subrange(n - table.len(), n as int));
    }
    assert(all.take(n as int) =~= all);
    proof {
        lemma_ranked_best_first(all);
    }
    if out.len() > MAX_HIGH_SCORES {
        out.truncate(MAX_HIGH_SCORES);
        assert(best_first(out@));
    }
    *table = out;
}

/// Some character of `s` is a comma.
pub open spec fn has_comma(s: Seq<char>) -> bool {
    exists|i: int| 0 <= i < s.len() && s[i] == ','
}

pub open spec fn is_digit(c: char) -> bool {
    '0' <= c && c <= '9'
}

/// The number that a string of decimal digits writes.
pub open spec fn digits_value(s: Seq<char>) -> int
    decreases s.len(),
{
    if s.len() == 0 {
        0
    } else {
        digits_value(s.drop_last()) * 10 + (s.last() as int - '0' as int)
    }
}

/// `s` without its leading `+` or `-`, if it has one.
pub open spec fn unsigned_part(s: Seq<char>) -> Seq<char> {
    if s.len() > 0 && (s[0] == '-' || s[0] == '+') {
        s.drop_first()
    } else {
        s
    }
}

/// `s` is one or more decimal digits.
pub open spec fn all_digits(s: Seq<char>) -> bool {
    &&& s.len() > 0
    &&& forall|i: int| 0 <= i < s.len() ==> is_digit(#[trigger] s[i])
}

/// The `i32` that `s` writes in decimal: an optional `+` or `-`, then one or
/// more digits and nothing else, with a value in range; `None` otherwise.
pub open spec fn decimal_i32(s: Seq<char>) -> Option<i32> {
    let body = unsigned_part(s);
    let v = if s.len() > 0 && s[0] == '-' { -digits_value(body) } else { digits_value(body) };
    if all_digits(body) && i32::MIN <= v <= i32::MAX {
        Some(v as i32)
    } else {
        None
    }
}

/// `line` is `name`, one comma, then `field`, with no other comma.
pub open spec fn splits_as(line: Seq<char>, name: Seq<char>, field: Seq<char>) -> bool {
    &&& line == name + seq![','] + field
    &&& !has_comma(name)
    &&& !has_comma(field)
}

/// Relies on `str::split_once` with a `','` pattern: the text before the
/// first comma and the text after it, or `None` where there is no comma.
#[verifier::external_body]
fn split_at_first_comma(s: &str) -> (r: Option<(&str, &str)>)
    ensures
        r matches Some(p) ==> s@ == p.0@ + seq![','] + p.1@ && !has_comma(p.0@),
        r is None ==> !has_comma(s@),
{
    s.split_once(',')
}

/// Relies on `i32`'s `FromStr` (`str::parse::<i32>`): an optional sign and
/// decimal digits, in range; any other text is an error.
#[verifier::external_body]
fn parse_i32(s: &str) -> (r: Option<i32>)
    ensures
        r == decimal_i32(s@),
{
    s.parse::<i32>().ok()
}

proof fn lemma_one_comma_split(line: Seq<char>, a: Seq<char>, b: Seq<char>, name: Seq<char>, field: Seq<char>)
    requires
        line == a + seq![','] + b,
        !has_comma(a),
        splits_as(line, name, field),
    ensures
        a == name,
        b == field,
{
    if a.len() < name.len() {
        assert(name[a.len() as int] == line[a.len() as int]);
    } else if a.len() > name.len() {
        assert(a[name.len() as int] == line[name.len() as int]);
    }
    assert(a =~= line.take(a.len() as int));
    assert(name =~= line.take(name.len() as int));
    assert(b =~= line.skip(a.len() as int + 1));
    assert(field =~= line.skip(name.len() as int + 1));
}

/// Reads one stored high-score record, `name,score`: exactly one comma, and
/// after it a decimal `i32`. Any other line gives `None`.
pub fn parse_high_score_line(line: &str) -> (r: Option<(String, i32)>)
    ensures
        r matches Some(p) ==> exists|field: Seq<char>| splits_as(line@, p.0@, field)
            && decimal_i32(field) == Some(p.1),
        r is None ==> forall|name: Seq<char>, field: Seq<char>| splits_as(line@, name, field)
            ==> decimal_i32(field) is None,
{
    match split_at_first_comma(line) {
        None => {
            proof {
                assert forall|name: Seq<char>, field: Seq<char>| splits_as(line@, name, field)
                    implies decimal_i32(field) is None by {
                    assert(line@[name.len() as int] == ',');
                }
            }
            None
        },
        Some((name, field)) => {
            let second = split_at_first_comma(field);
            if second.is_some() {
                proof {
                    let q = second.unwrap();
                    assert(field@[q.0@.len() as int] == ',');
                    assert forall|n: Seq<char>, f: Seq<char>| splits_as(line@, n, f)
                        implies decimal_i32(f) is None by {
                        lemma_one_comma_split(line@, name@, field@, n, f);
                    }
                }
                return None;
            }
            match parse_i32(field) {
                None => {
                    proof {
                        assert forall|n: Seq<char>, f: Seq<char>| splits_as(line@, n, f)
                            implies decimal_i32(f) is None by {
                            lemma_one_comma_split(line@, name@, field@, n, f);
                        }
                    }
                    None
                },
                Some(v) => {
                    let n = name.to_owned();
                    assert(splits_as(line@, n@, field@));
                    Some((n, v))
                },
            }
        },
    }
}

} // verus!
