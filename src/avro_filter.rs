use vstd::prelude::*;
use vstd::string::*;
use crate::strutil::occurs_at_exec;
use crate::avro_lens::{Value, reach, segments, extract, deref_opt};

verus! {

/// The character of the decimal digit `d`.
pub open spec fn digit_char(d: nat) -> char {
    ((48 + d) as u8) as char
}

/// The decimal digits of `n`, most significant first, without leading zeros.
pub open spec fn digits(n: nat) -> Seq<char>
    decreases n,
{
    if n < 10 {
        seq![digit_char(n)]
    } else {
        digits(n / 10).push(digit_char(n % 10))
    }
}

/// The decimal text of `i`, with a leading '-' where it is negative.
pub open spec fn decimal(i: int) -> Seq<char> {
    if i < 0 {
        seq!['-'] + digits((-i) as nat)
    } else {
        digits(i as nat)
    }
}

/// The text of a scalar value as the filter compares it: decimal for the
/// integer kinds, "true" or "false" for a boolean, a string as it is. Other
/// values have none.
pub open spec fn text_of(v: Value) -> Option<Seq<char>> {
    match v {
        Value::Int(a) => Some(decimal(a as int)),
        Value::Long(a) => Some(decimal(a as int)),
        Value::Boolean(b) => Some(if b { seq!['t', 'r', 'u', 'e'] } else { seq!['f', 'a', 'l', 's', 'e'] }),
        Value::String(s) => Some(s@),
        _ => None,
    }
}

/// The accepted values as character sequences.
pub open spec fn texts(values: Seq<String>) -> Seq<Seq<char>> {
    values.map_values(|s: String| s@)
}

/// `v` has a text and that text is one of `values`.
pub open spec fn accepted(v: Value, values: Seq<Seq<char>>) -> bool {
    match text_of(v) {
        Some(t) => values.contains(t),
        None => false,
    }
}

/// A row matches where `path` reaches a value in it that is accepted.
pub open spec fn row_matches(row: Value, path: Seq<Seq<char>>, values: Seq<Seq<char>>) -> bool {
    match reach(row, path) {
        Some(v) => accepted(v, values),
        None => false,
    }
}

/// The rows of `rows` that match, in their order.
pub open spec fn matching(rows: Seq<Value>, path: Seq<Seq<char>>, values: Seq<Seq<char>>) -> Seq<Value> {
    rows.filter(|row: Value| row_matches(row, path, values))
}

proof fn lemma_digits_last(n: nat)
    ensures
        digits(n).len() >= 1,
        digits(n).last() == digit_char(n % 10),
    decreases n,
{
    if n >= 10 {
        lemma_digits_last(n / 10);
    }
}

/// Whether `s` is the decimal text of `n`.
pub fn is_decimal_of(s: &str, n: i64) -> (r: bool)
    ensures
        r == (s@ == decimal(n as int)),
{
    let len = s.unicode_len();
    let neg = n < 0;
    let start: usize = if neg { 1 } else { 0 };
    let mag: u64 = if neg { (-(n + 1)) as u64 + 1 } else { n as u64 };
    let ghost pre: Seq<char> = if neg { seq!['-'] } else { Seq::<char>::empty() };
    proof {
        assert(decimal(n as int) =~= pre + digits(mag as nat));
    }
    if len < start + 1 {
        proof { lemma_digits_last(mag as nat); }
        return false;
    }
    if neg && s.get_char(0) != '-' {
        assert((pre + digits(mag as nat))[0] == '-');
        return false;
    }
    let mut k: usize = len;
    let mut m: u64 = mag;
    proof {
        assert(s@.subrange(len as int, len as int) =~= Seq::<char>::empty());
        assert(digits(mag as nat) =~= digits(m as nat) + s@.subrange(k as int, len as int));
    }
    loop
        invariant
            len == s@.len(),
            start <= k <= len,
            start + 1 <= len,
            start == (if neg { 1usize } else { 0usize }),
            pre == (if neg { seq!['-'] } else { Seq::<char>::empty() }),
            m >= 1 || mag == 0,
            m <= mag,
            neg ==> s@[0] == '-',
            pre.len() == start,
            decimal(n as int) == pre + digits(mag as nat),
            digits(mag as nat) == digits(m as nat) + s@.subrange(k as int, len as int),
        decreases k,
    {
        proof { lemma_digits_last(m as nat); }
        if k == start {
            proof {
                if s@ == decimal(n as int) {
                    assert(s@.len() == start + digits(m as nat).len() + (len - k));
                }
            }
            return false;
        }
        let d: u8 = (m % 10) as u8;
        let c: char = (48u8 + d) as char;
        if s.get_char(k - 1) != c {
            proof {
                if s@ == decimal(n as int) {
                    let e = pre + digits(m as nat) + s@.subrange(k as int, len as int);
                    assert(e =~= pre + digits(mag as nat));
                    assert(e[k - 1] == digits(m as nat).last());
                }
            }
            return false;
        }
        let ghost old_m = m;
        m = m / 10;
        proof {
            let tail = s@.subrange(k - 1, len as int);
            assert(tail =~= seq![c] + s@.subrange(k as int, len as int));
            if old_m >= 10 {
                assert(digits(old_m as nat) == digits(m as nat).push(c));
                assert(digits(old_m as nat) + s@.subrange(k as int, len as int) =~= digits(m as nat) + tail);
            } else {
                assert(digits(old_m as nat) =~= seq![c]);
            }
        }
        k = k - 1;
        if m == 0 {
            proof {
                assert(digits(mag as nat) =~= s@.subrange(k as int, len as int));
                if k == start {
                    if neg {
                        assert(s@ =~= pre + s@.subrange(k as int, len as int));
                    } else {
                        assert(s@ =~= s@.subrange(k as int, len as int));
                    }
                } else {
                    if s@ == decimal(n as int) {
                        assert(s@.len() == start + (len - k));
                    }
                }
            }
            return k == start;
        }
    }
}

/// Whether `a` and `b` hold the same characters.
fn same_text(a: &str, b: &str) -> (r: bool)
    ensures
        r == (a@ == b@),
{
    if a.unicode_len() != b.unicode_len() {
        return false;
    }
    let r = occurs_at_exec(a, b, 0);
    assert(a@.subrange(0, b@.len() as int) =~= a@);
    r
}

/// Whether the text of `v` is one of `values`; values without a text (not an
/// integer, boolean or string) are never accepted.
pub fn check_value_eq(v: &Value, values: &[String]) -> (r: bool)
    ensures
        r == accepted(*v, texts(values@)),
{
    let mut i: usize = 0;
    while i < values.len()
        invariant
            i <= values@.len(),
            text_of(*v) is Some ==> forall|j: int| 0 <= j < i ==> values@[j]@ != text_of(*v)->0,
        decreases values@.len() - i,
    {
        let candidate = values[i].as_str();
        let hit = match v {
            Value::Long(a) => is_decimal_of(candidate, *a),
            Value::Int(a) => is_decimal_of(candidate, *a as i64),
            Value::Boolean(b) => {
                let t = if *b {
                    "true"
                } else {
                    "false"
                };
                proof {
                    reveal_strlit("true");
                    reveal_strlit("false");
                    assert("true"@ =~= seq!['t', 'r', 'u', 'e']);
                    assert("false"@ =~= seq!['f', 'a', 'l', 's', 'e']);
                }
                same_text(candidate, t)
            },
            Value::String(s) => same_text(candidate, s.as_str()),
            _ => {
                return false;
            },
        };
        if hit {
            assert(texts(values@)[i as int] == text_of(*v)->0);
            return true;
        }
        i = i + 1;
    }
    proof {
        if let Some(t) = text_of(*v) {
            if texts(values@).contains(t) {
                let j = choose|j: int| 0 <= j < texts(values@).len() && texts(values@)[j] == t;
                assert(values@[j]@ == t);
            }
        }
    }
    false
}

/// Whether `row` matches: `column_path` reaches an accepted value in it.
pub fn row_matches_exec(row: &Value, column_path: &[String], values: &[String]) -> (r: bool)
    ensures
        r == row_matches(*row, segments(column_path@), texts(values@)),
{
    match extract(row, column_path) {
        Some(v) => check_value_eq(v, values),
        None => false,
    }
}

/// The positions of the matching rows, in increasing order.
pub fn select_rows(rows: &[Value], column_path: &[String], values: &[String]) -> (r: Vec<usize>)
    ensures
        forall|k: int| 0 <= k < r@.len() ==> r@[k] < rows@.len(),
        forall|k1: int, k2: int| 0 <= k1 < k2 < r@.len() ==> r@[k1] < r@[k2],
        forall|i: int|
            0 <= i < rows@.len() ==> (r@.contains(i as usize) <==> row_matches(
                rows@[i],
                segments(column_path@),
                texts(values@),
            )),
{
    let mut r: Vec<usize> = Vec::new();
    let mut i: usize = 0;
    while i < rows.len()
        invariant
            i <= rows@.len(),
            forall|k: int| 0 <= k < r@.len() ==> r@[k] < i,
            forall|k1: int, k2: int| 0 <= k1 < k2 < r@.len() ==> r@[k1] < r@[k2],
            forall|x: int|
                0 <= x < i ==> (r@.contains(x as usize) <==> row_matches(
                    rows@[x],
                    segments(column_path@),
                    texts(values@),
                )),
        decreases rows@.len() - i,
    {
        let ghost before = r@;
        if row_matches_exec(&rows[i], column_path, values) {
            r.push(i);
            proof {
                assert forall|x: int| 0 <= x < i implies (#[trigger] r@.contains(x as usize) <==> before.contains(x as usize)) by {
                    if r@.contains(x as usize) {
                        let k = choose|k: int| 0 <= k < r@.len() && r@[k] == x as usize;
                        assert(k < before.len());
                        assert(before[k] == x);
                    }
                    if before.contains(x as usize) {
                        let k = choose|k: int| 0 <= k < before.len() && before[k] == x as usize;
                        assert(r@[k] == x);
                    }
                }
                assert(r@[before.len() as int] == i);
            }
        } else {
            proof {
                if r@.contains(i) {
                    let k = choose|k: int| 0 <= k < r@.len() && r@[k] == i;
                    assert(r@[k] < i);
                }
            }
        }
        i = i + 1;
    }
    r
}

/// The matching rows, in their order.
pub fn filter_rows(rows: Vec<Value>, column_path: &[String], values: &[String]) -> (r: Vec<Value>)
    ensures
        r@ == matching(rows@, segments(column_path@), texts(values@)),
{
    let ghost path = segments(column_path@);
    let ghost vals = texts(values@);
    let ghost all = rows@;
    let mut result: Vec<Value> = Vec::new();
    proof {
        assert(all.take(0) =~= Seq::<Value>::empty());
        reveal(Seq::filter);
    }
    for row in it: rows
        invariant
            path == segments(column_path@),
            vals == texts(values@),
            it.seq() == all,
            result@ == matching(all.take(it.index() as int), path, vals),
    {
        let ghost k = it.index();
        proof {
            assert(all.take(k + 1).drop_last() =~= all.take(k));
            assert(all.take(k + 1).last() == row);
            reveal(Seq::filter);
        }
        if row_matches_exec(&row, column_path, values) {
            result.push(row);
        }
    }
    proof {
        assert(all.take(all.len() as int) =~= all);
    }
    result
}

proof fn lemma_filter_twice(s: Seq<Value>, p: spec_fn(Value) -> bool)
    ensures
        s.filter(p).filter(p) == s.filter(p),
    decreases s.len(),
{
    reveal(Seq::filter);
    if s.len() > 0 {
        let t = s.drop_last().filter(p);
        lemma_filter_twice(s.drop_last(), p);
        if p(s.last()) {
            assert(t.push(s.last()).drop_last() =~= t);
        }
    }
}

/// Filtering rows that all match returns them all, in their order: in
/// particular where `values` holds the text found at `path` in every row.
pub proof fn lemma_all_matching_rows_kept(rows: Seq<Value>, path: Seq<Seq<char>>, values: Seq<Seq<char>>)
    requires
        forall|i: int| 0 <= i < rows.len() ==> #[trigger] row_matches(rows[i], path, values),
    ensures
        matching(rows, path, values) == rows,
    decreases rows.len(),
{
    reveal(Seq::filter);
    if rows.len() > 0 {
        let front = rows.drop_last();
        assert forall|i: int| 0 <= i < front.len() implies #[trigger] row_matches(front[i], path, values) by {
            assert(front[i] == rows[i]);
        }
        lemma_all_matching_rows_kept(front, path, values);
        assert(row_matches(rows[rows.len() - 1], path, values));
        assert(front.push(rows.last()) =~= rows);
    }
}

/// Filtering the result of a filter again, with the same path and values,
/// changes nothing.
pub proof fn lemma_filter_idempotent(rows: Seq<Value>, path: Seq<Seq<char>>, values: Seq<Seq<char>>)
    ensures
        matching(matching(rows, path, values), path, values) == matching(rows, path, values),
{
    lemma_filter_twice(rows, |row: Value| row_matches(row, path, values));
}

/// Filtering rows gathered from several files one after another is filtering
/// each file and putting the results one after another, in the same order.
pub proof fn lemma_filter_keeps_file_order(
    first: Seq<Value>,
    second: Seq<Value>,
    path: Seq<Seq<char>>,
    values: Seq<Seq<char>>,
)
    ensures
        matching(first + second, path, values) == matching(first, path, values) + matching(
            second,
            path,
            values,
        ),
{
    Seq::filter_distributes_over_add(first, second, |row: Value| row_matches(row, path, values));
}

} // verus!
