use vstd::prelude::*;
use vstd::string::*;

verus! {

/// `t` stands in `s` from character position `i` on.
pub open spec fn occurs_at(s: Seq<char>, t: Seq<char>, i: int) -> bool {
    0 <= i && i + t.len() <= s.len() && s.subrange(i, i + t.len()) == t
}

/// `i` is the last position at which `t` occurs in `s`.
pub open spec fn last_occurrence(s: Seq<char>, t: Seq<char>, i: int) -> bool {
    occurs_at(s, t, i) && forall|j: int| i < j ==> !occurs_at(s, t, j)
}

/// `r` is `s` without its leading run of '/'.
pub open spec fn is_left_trimmed(s: Seq<char>, r: Seq<char>) -> bool {
    &&& r.len() <= s.len()
    &&& r == s.skip(s.len() - r.len())
    &&& forall|j: int| 0 <= j < s.len() - r.len() ==> s[j] == '/'
    &&& (r.len() == 0 || r[0] != '/')
}

/// `r` is `s` without its trailing run of '/'.
pub open spec fn is_right_trimmed(s: Seq<char>, r: Seq<char>) -> bool {
    &&& r.len() <= s.len()
    &&& r == s.take(r.len() as int)
    &&& forall|j: int| r.len() <= j < s.len() ==> s[j] == '/'
    &&& (r.len() == 0 || r.last() != '/')
}

/// Whether `t` occurs in `s` at character position `k`.
pub fn occurs_at_exec(s: &str, t: &str, k: usize) -> (r: bool)
    requires
        k + t@.len() <= s@.len(),
    ensures
        r == occurs_at(s@, t@, k as int),
{
    let n = s.unicode_len();
    let m = t.unicode_len();
    let mut j: usize = 0;
    while j < m
        invariant
            n == s@.len(),
            m == t@.len(),
            k + m <= s@.len(),
            j <= m,
            forall|x: int| 0 <= x < j ==> s@[k + x] == t@[x],
        decreases m - j,
    {
        if s.get_char(k + j) != t.get_char(j) {
            assert(s@.subrange(k as int, k + m)[j as int] != t@[j as int]);
            return false;
        }
        j = j + 1;
    }
    assert(s@.subrange(k as int, k + m) =~= t@);
    true
}

/// Small text helpers on paths and object keys. Positions count characters.
pub trait StrUtil {
    /// The characters of the text.
    spec fn text(&self) -> Seq<char>;

    /// The characters from `start` up to, not including, `end`.
    fn sub_str(&self, start: usize, end: usize) -> (r: String)
        requires
            start <= end <= self.text().len(),
        ensures
            r@ == self.text().subrange(start as int, end as int),
    ;

    /// What lies between as many characters as `prefix` has at the front and
    /// as many as `suffix` has at the back.
    fn extract_middle(&self, prefix: &str, suffix: &str) -> (r: String)
        requires
            prefix@.len() + suffix@.len() <= self.text().len(),
        ensures
            r@ == self.text().subrange(
                prefix@.len() as int,
                self.text().len() - suffix@.len(),
            ),
    ;

    /// What follows the last occurrence of `sub_str`.
    fn extract_after_last(&self, sub_str: &str) -> (r: String)
        requires
            exists|i: int| occurs_at(self.text(), sub_str@, i),
        ensures
            exists|i: int|
                last_occurrence(self.text(), sub_str@, i) && r@ == self.text().subrange(
                    i + sub_str@.len(),
                    self.text().len() as int,
                ),
    ;

    /// The text without its leading slashes.
    fn trim_left_slash(&self) -> (r: &str)
        ensures
            is_left_trimmed(self.text(), r@),
    ;

    /// The text without its trailing slashes.
    fn trim_right_slash(&self) -> (r: &str)
        ensures
            is_right_trimmed(self.text(), r@),
    ;
}

impl StrUtil for str {
    open spec fn text(&self) -> Seq<char> {
        self@
    }

    fn sub_str(&self, start: usize, end: usize) -> (r: String) {
        self.substring_char(start, end).to_owned()
    }

    fn extract_middle(&self, prefix: &str, suffix: &str) -> (r: String) {
        let n = self.unicode_len();
        let p = prefix.unicode_len();
        let q = suffix.unicode_len();
        self.substring_char(p, n - q).to_owned()
    }

    fn extract_after_last(&self, sub_str: &str) -> (r: String) {
        let n = self.unicode_len();
        let m = sub_str.unicode_len();
        let ghost w = choose|i: int| occurs_at(self.text(), sub_str@, i);
        let mut k: usize = n - m;
        loop
            invariant
                n == self@.len(),
                m == sub_str@.len(),
                k + m <= n,
                occurs_at(self@, sub_str@, w),
                w <= k,
                forall|j: int| k < j ==> !occurs_at(self@, sub_str@, j),
            decreases k,
        {
            if occurs_at_exec(self, sub_str, k) {
                let r = self.substring_char(k + m, n).to_owned();
                assert(last_occurrence(self.text(), sub_str@, k as int) && r@ == self.text().subrange(
                    k + sub_str@.len(),
                    self.text().len() as int,
                ));
                return r;
            }
            k = k - 1;
        }
    }

    fn trim_left_slash(&self) -> (r: &str) {
        let n = self.unicode_len();
        let mut i: usize = 0;
        while i < n && self.get_char(i) == '/'
            invariant
                n == self@.len(),
                i <= n,
                forall|j: int| 0 <= j < i ==> self@[j] == '/',
            decreases n - i,
        {
            i = i + 1;
        }
        let r = self.substring_char(i, n);
        assert(r@ =~= self@.skip(i as int));
        r
    }

    fn trim_right_slash(&self) -> (r: &str) {
        let n = self.unicode_len();
        let mut i: usize = n;
        while i > 0 && self.get_char(i - 1) == '/'
            invariant
                n == self@.len(),
                i <= n,
                forall|j: int| i <= j < n ==> self@[j] == '/',
            decreases i,
        {
            i = i - 1;
        }
        let r = self.substring_char(0, i);
        assert(r@ =~= self@.take(i as int));
        r
    }
}

} // verus!
