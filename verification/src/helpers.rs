//! Template variable substitution.
//!
//! A template may hold the placeholders `{{date}}` and `{{week}}`; they are
//! replaced by the current local date in `YYYY-MM-DD` form and the current
//! ISO week number. The replacement itself is plain text work and verified;
//! only asking the clock is left to an outside crate.

use vstd::prelude::*;
use chrono::Datelike;

verus! {

/// The text with every non-overlapping occurrence of `pat`, found left to
/// right, replaced by `rep`.
pub open spec fn spec_replace(s: Seq<char>, pat: Seq<char>, rep: Seq<char>) -> Seq<char>
    decreases s.len() when pat.len() > 0
{
    if s.len() < pat.len() {
        s
    } else if s.subrange(0, pat.len() as int) == pat {
        rep + spec_replace(s.skip(pat.len() as int), pat, rep)
    } else {
        seq![s[0]] + spec_replace(s.drop_first(), pat, rep)
    }
}

/// Replaces every occurrence of `pat` in `s` by `rep`, left to right, without
/// overlap.
pub fn replace_all(s: &str, pat: &str, rep: &str) -> (r: String)
    requires
        pat@.len() > 0,
    ensures
        r@ == spec_replace(s@, pat@, rep@),
{
    let ghost sv = s@;
    let n = s.unicode_len();
    let m = pat.unicode_len();
    let mut r = String::new();
    let mut i: usize = 0;
    proof {
        assert(sv.skip(0) =~= sv);
        assert(r@ + spec_replace(sv, pat@, rep@) =~= spec_replace(sv, pat@, rep@));
    }
    while i < n
        invariant
            n == sv.len(),
            m == pat@.len(),
            0 < m,
            i <= n,
            sv == s@,
            spec_replace(sv, pat@, rep@) == r@ + spec_replace(sv.skip(i as int), pat@, rep@),
        decreases n - i,
    {
        let ghost tail = sv.skip(i as int);
        if n - i < m {
            let rest = s.substring_char(i, n);
            proof {
                assert(tail.len() < pat@.len());
                assert(rest@ =~= tail);
            }
            r.append(rest);
            i = n;
            proof {
                assert(sv.skip(n as int) =~= Seq::<char>::empty());
                assert(spec_replace(Seq::<char>::empty(), pat@, rep@) =~= Seq::<char>::empty());
                assert(r@ + Seq::<char>::empty() =~= r@);
            }
        } else {
            let mut j: usize = 0;
            let mut matched = true;
            while j < m && matched
                invariant
                    n == sv.len(),
                    m == pat@.len(),
                    i <= n,
                    n - i >= m,
                    j <= m,
                    sv == s@,
                    matched ==> (forall|q: int| 0 <= q < j ==> sv[i + q] == pat@[q]),
                    !matched ==> j < m && sv[i + j as int] != pat@[j as int],
                decreases m - j + (if matched {
                        1int
                    } else {
                        0int
                    }),
            {
                if s.get_char(i + j) != pat.get_char(j) {
                    matched = false;
                } else {
                    j = j + 1;
                }
            }
            if matched {
                proof {
                    assert(tail.subrange(0, m as int) =~= pat@);
                }
                r.append(rep);
                i = i + m;
                proof {
                    assert(tail.skip(m as int) =~= sv.skip(i as int));
                }
            } else {
                proof {
                    assert(tail.subrange(0, m as int)[j as int] == sv[i + j as int]);
                    assert(tail.subrange(0, m as int) != pat@);
                    assert(tail.len() >= pat@.len());
                }
                let c = s.substring_char(i, i + 1);
                proof {
                    assert(c@ =~= seq![sv[i as int]]);
                    assert(tail[0] == sv[i as int]);
                }
                r.append(c);
                i = i + 1;
                proof {
                    assert(tail.drop_first() =~= sv.skip(i as int));
                }
            }
        }
    }
    proof {
        assert(sv.skip(n as int) =~= Seq::<char>::empty());
        assert(spec_replace(Seq::<char>::empty(), pat@, rep@) =~= Seq::<char>::empty());
        assert(r@ + Seq::<char>::empty() =~= r@);
    }
    r
}

/// Substitutes the given date and week strings for the `{{date}}` and
/// `{{week}}` placeholders, in that order.
pub fn replace_variables_with(template: &str, date: &str, week: &str) -> (r: String)
    ensures
        r@ == spec_replace(
            spec_replace(template@, "{{date}}"@, date@),
            "{{week}}"@,
            week@,
        ),
{
    proof {
        reveal_strlit("{{date}}");
        reveal_strlit("{{week}}");
    }
    let step = replace_all(template, "{{date}}", date);
    replace_all(step.as_str(), "{{week}}", week)
}

/// Whether a character can appear in a formatted date or week number: an
/// ASCII digit, a hyphen, or the sign chrono prints before a five-digit year.
pub open spec fn is_date_char(c: char) -> bool {
    ('0' <= c && c <= '9') || c == '-' || c == '+'
}

/// Relies on chrono's `DateTime::from_timestamp`, `with_timezone(&Local)`,
/// `format("%Y-%m-%d")` and `Datelike::iso_week().week()`: the current local
/// date and ISO week number as text. The clock is read through
/// `SystemTime::duration_since`, whose failure (a clock before 1970), like a
/// timestamp beyond chrono's range, falls back to the epoch date, so the call
/// is total. The values depend on the clock and the machine's time zone, so
/// only their character shape is promised: the `%Y-%m-%d` pattern and a `u32`
/// week number print nothing but digits, `-` and a possible year sign.
#[verifier::external_body]
fn current_date_and_week() -> (r: (String, String))
    ensures
        forall|i: int| 0 <= i < r.0@.len() ==> is_date_char(#[trigger] r.0@[i]),
        forall|i: int| 0 <= i < r.1@.len() ==> is_date_char(#[trigger] r.1@[i]),
{
    let secs = std::time::SystemTime::now()
        .duration_since(std::time::UNIX_EPOCH)
        .map(|d| d.as_secs() as i64)
        .unwrap_or(0);
    match chrono::DateTime::from_timestamp(secs, 0) {
        Some(utc) => {
            let local = utc.with_timezone(&chrono::Local);
            (local.format("%Y-%m-%d").to_string(), local.iso_week().week().to_string())
        },
        None => ("1970-01-01".to_string(), "1".to_string()),
    }
}

/// Replaces the `{{date}}` and `{{week}}` placeholders with the current local
/// date and ISO week number. Whatever the clock returned, the result is the
/// template with both placeholders substituted by brace-free text, so no
/// placeholder survives the call.
pub fn replace_variables(template: &str) -> (r: String)
    ensures
        exists|d: Seq<char>, w: Seq<char>|
            r@ == spec_replace(spec_replace(template@, "{{date}}"@, d), "{{week}}"@, w)
                && (forall|i: int| 0 <= i < d.len() ==> is_date_char(#[trigger] d[i]))
                && (forall|i: int| 0 <= i < w.len() ==> is_date_char(#[trigger] w[i])),
{
    let (date, week) = current_date_and_week();
    let r = replace_variables_with(template, date.as_str(), week.as_str());
    proof {
        let d = date@;
        let w = week@;
        assert(r@ == spec_replace(spec_replace(template@, "{{date}}"@, d), "{{week}}"@, w)
            && (forall|i: int| 0 <= i < d.len() ==> is_date_char(#[trigger] d[i]))
            && (forall|i: int| 0 <= i < w.len() ==> is_date_char(#[trigger] w[i])));
    }
    r
}

/// The first index at or after `k` holding a line break, or the length of
/// `s`.
pub open spec fn line_end(s: Seq<char>, k: int) -> int
    decreases s.len() - k when 0 <= k <= s.len()
{
    if k >= s.len() || s[k] == '\n' {
        k
    } else {
        line_end(s, k + 1)
    }
}

/// The text with its first `k` newline-separated lines removed; empty if
/// there are no more than `k` lines.
pub open spec fn spec_skip_lines(s: Seq<char>, k: nat) -> Seq<char>
    decreases k,
{
    if k == 0 {
        s
    } else if line_end(s, 0) >= s.len() {
        Seq::empty()
    } else {
        spec_skip_lines(s.skip(line_end(s, 0) + 1), (k - 1) as nat)
    }
}

proof fn lemma_line_end(s: Seq<char>, k: int)
    requires
        0 <= k <= s.len(),
    ensures
        k <= line_end(s, k) <= s.len(),
        line_end(s, k) < s.len() ==> s[line_end(s, k)] == '\n',
    decreases s.len() - k,
{
    if k >= s.len() || s[k] == '\n' {
    } else {
        lemma_line_end(s, k + 1);
    }
}

/// Returns `content` with its first `offset` lines removed; the preview uses
/// it to hide leading front matter.
pub fn skip_lines(content: &str, offset: usize) -> (r: String)
    ensures
        r@ == spec_skip_lines(content@, offset as nat),
{
    let ghost sv = content@;
    let n = content.unicode_len();
    let mut start: usize = 0;
    let mut skipped: usize = 0;
    proof {
        assert(sv.skip(0) =~= sv);
    }
    while skipped < offset
        invariant
            n == sv.len(),
            sv == content@,
            start <= n,
            skipped <= offset,
            spec_skip_lines(sv, offset as nat) == spec_skip_lines(
                sv.skip(start as int),
                (offset - skipped) as nat,
            ),
        decreases offset - skipped,
    {
        let ghost tail = sv.skip(start as int);
        let mut j = start;
        while j < n && content.get_char(j) != '\n'
            invariant
                n == sv.len(),
                sv == content@,
                start <= j <= n,
                line_end(tail, j - start as int) == line_end(tail, 0),
                tail == sv.skip(start as int),
            decreases n - j,
        {
            proof {
                assert(tail[j - start as int] == sv[j as int]);
            }
            j = j + 1;
        }
        proof {
            assert(tail.len() == n - start);
            if j < n {
                assert(tail[j - start as int] == sv[j as int]);
                assert(line_end(tail, j - start as int) == j - start as int);
            } else {
                assert(line_end(tail, j - start as int) == tail.len());
            }
        }
        if j >= n {
            proof {
                assert(line_end(tail, 0) >= tail.len());
                assert(spec_skip_lines(tail, (offset - skipped) as nat) =~= Seq::<char>::empty());
            }
            let r = String::new();
            proof {
                assert(r@ =~= Seq::<char>::empty());
            }
            return r;
        }
        proof {
            assert(line_end(tail, 0) == j - start as int);
            assert(tail.skip(j - start + 1int) =~= sv.skip(j + 1int));
        }
        start = j + 1;
        skipped = skipped + 1;
    }
    let r = content.substring_char(start, n).to_owned();
    proof {
        assert(r@ =~= sv.skip(start as int));
    }
    r
}

} // verus!
