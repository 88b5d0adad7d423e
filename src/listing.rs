use vstd::prelude::*;
use vstd::string::*;
use crate::strutil::{occurs_at_exec, StrUtil};

verus! {

/// Which listed object keys a flat listing keeps.
pub enum KeyFilter {
    /// Every key.
    Any,
    /// The keys that end with the given text.
    Suffix(String),
}

/// `key` ends with `suffix`.
pub open spec fn ends_with(key: Seq<char>, suffix: Seq<char>) -> bool {
    suffix.len() <= key.len() && key.skip(key.len() - suffix.len()) == suffix
}

impl KeyFilter {
    /// Whether the filter keeps a key with these characters.
    pub open spec fn keeps(&self, key: Seq<char>) -> bool {
        match self {
            KeyFilter::Any => true,
            KeyFilter::Suffix(s) => ends_with(key, s@),
        }
    }

    /// Whether the filter keeps `key`.
    pub fn accepts(&self, key: &str) -> (r: bool)
        ensures
            r == self.keeps(key@),
    {
        match self {
            KeyFilter::Any => true,
            KeyFilter::Suffix(s) => {
                let n = key.unicode_len();
                let m = s.unicode_len();
                if m > n {
                    return false;
                }
                let r = occurs_at_exec(key, s.as_str(), n - m);
                assert(key@.subrange(n - m, n as int) =~= key@.skip(n - m));
                r
            },
        }
    }
}

/// What a listing does after it has taken in one page.
pub enum ListingStep {
    /// Ask for the next page with this continuation token.
    Next(String),
    /// The listing is complete.
    Done,
}

/// The step after a page whose continuation token is `token`, where `stop`
/// says whether the soft limit was reached.
pub open spec fn step_after(stop: bool, token: Option<String>) -> ListingStep {
    if stop {
        ListingStep::Done
    } else {
        match token {
            Some(t) => ListingStep::Next(t),
            None => ListingStep::Done,
        }
    }
}

/// A flat listing in progress: the keys kept so far from the pages taken in.
pub struct KeyListing {
    pub keys: Vec<String>,
    /// Stop asking for pages once this many keys are kept.
    pub soft_limit: Option<i32>,
    pub filter: KeyFilter,
}

/// `count` kept keys reach the soft limit `limit`.
pub open spec fn limit_reached(limit: Option<i32>, count: int) -> bool {
    match limit {
        Some(l) => l <= count,
        None => false,
    }
}

impl KeyListing {
    /// A listing that has taken in no page yet.
    pub fn new(soft_limit: Option<i32>, filter: KeyFilter) -> (r: KeyListing)
        ensures
            r.keys@ == Seq::<String>::empty(),
            r.soft_limit == soft_limit,
            r.filter == filter,
    {
        KeyListing { keys: Vec::new(), soft_limit, filter }
    }

    /// Takes in one page of keys, in the order the store listed them, and says
    /// whether to ask for the next page: not once the soft limit is reached,
    /// nor where the page carries no continuation token.
    pub fn fold_page(&mut self, page_keys: &[String], next_token: Option<String>) -> (step: ListingStep)
        ensures
            final(self).keys@ == old(self).keys@ + page_keys@.filter(
                |k: String| old(self).filter.keeps(k@),
            ),
            final(self).soft_limit == old(self).soft_limit,
            final(self).filter == old(self).filter,
            step == step_after(
                limit_reached(final(self).soft_limit, final(self).keys@.len() as int),
                next_token,
            ),
    {
        let ghost start = self.keys@;
        let ghost keep = |k: String| self.filter.keeps(k@);
        let mut i: usize = 0;
        proof {
            reveal(Seq::filter);
            assert(page_keys@.take(0) =~= Seq::<String>::empty());
            assert(start + Seq::<String>::empty() =~= start);
        }
        while i < page_keys.len()
            invariant
                i <= page_keys@.len(),
                keep == (|k: String| self.filter.keeps(k@)),
                self.keys@ == start + page_keys@.take(i as int).filter(keep),
                self.soft_limit == old(self).soft_limit,
                self.filter == old(self).filter,
            decreases page_keys@.len() - i,
        {
            proof {
                reveal(Seq::filter);
                assert(page_keys@.take(i + 1).drop_last() =~= page_keys@.take(i as int));
                assert(page_keys@.take(i + 1).last() == page_keys@[i as int]);
            }
            if self.filter.accepts(page_keys[i].as_str()) {
                let k = page_keys[i].clone();
                self.keys.push(k);
                proof {
                    assert(start + page_keys@.take(i + 1).filter(keep) =~= (start + page_keys@.take(
                        i as int,
                    ).filter(keep)).push(page_keys@[i as int]));
                }
            }
            i = i + 1;
        }
        proof {
            assert(page_keys@.take(i as int) =~= page_keys@);
        }
        let stop = match self.soft_limit {
            Some(l) => l < 0 || (l as usize) <= self.keys.len(),
            None => false,
        };
        if stop {
            ListingStep::Done
        } else {
            match next_token {
                Some(t) => ListingStep::Next(t),
                None => ListingStep::Done,
            }
        }
    }
}

/// The part of `s` between as many characters as `prefix` has at the front
/// and as many as `delimiter` has at the back.
pub open spec fn middle(s: Seq<char>, prefix: Seq<char>, delimiter: Seq<char>) -> Seq<char> {
    s.subrange(prefix.len() as int, s.len() - delimiter.len())
}

/// A listing of the "directories" under a prefix: the common prefixes that
/// the store groups keys into, each without the prefix and the delimiter.
pub struct PrefixListing {
    pub parts: Vec<String>,
    pub prefix: String,
    pub delimiter: String,
}

impl PrefixListing {
    /// A listing that has taken in no page yet.
    pub fn new(prefix: String, delimiter: String) -> (r: PrefixListing)
        ensures
            r.parts@ == Seq::<String>::empty(),
            r.prefix == prefix,
            r.delimiter == delimiter,
    {
        PrefixListing { parts: Vec::new(), prefix, delimiter }
    }

    /// Takes in one page of common prefixes, each of which ends in the
    /// delimiter and starts with the prefix, and says whether to ask for the
    /// next page: exactly where the page carries a continuation token.
    pub fn fold_page(&mut self, common_prefixes: &[String], next_token: Option<String>) -> (step: ListingStep)
        requires
            forall|i: int|
                0 <= i < common_prefixes@.len() ==> old(self).prefix@.len() + old(
                    self,
                ).delimiter@.len() <= #[trigger] common_prefixes@[i]@.len(),
        ensures
            final(self).prefix == old(self).prefix,
            final(self).delimiter == old(self).delimiter,
            final(self).parts@.len() == old(self).parts@.len() + common_prefixes@.len(),
            forall|i: int|
                0 <= i < old(self).parts@.len() ==> final(self).parts@[i] == old(self).parts@[i],
            forall|j: int|
                0 <= j < common_prefixes@.len() ==> #[trigger] final(self).parts@[old(
                    self,
                ).parts@.len() + j]@ == middle(
                    common_prefixes@[j]@,
                    old(self).prefix@,
                    old(self).delimiter@,
                ),
            step == step_after(false, next_token),
    {
        let ghost start = self.parts@;
        let mut i: usize = 0;
        while i < common_prefixes.len()
            invariant
                i <= common_prefixes@.len(),
                self.prefix == old(self).prefix,
                self.delimiter == old(self).delimiter,
                forall|x: int|
                    0 <= x < common_prefixes@.len() ==> self.prefix@.len() + self.delimiter@.len()
                        <= #[trigger] common_prefixes@[x]@.len(),
                self.parts@.len() == start.len() + i,
                forall|x: int| 0 <= x < start.len() ==> self.parts@[x] == start[x],
                forall|j: int|
                    0 <= j < i ==> #[trigger] self.parts@[start.len() + j]@ == middle(
                        common_prefixes@[j]@,
                        self.prefix@,
                        self.delimiter@,
                    ),
            decreases common_prefixes@.len() - i,
        {
            let part = common_prefixes[i].as_str().extract_middle(
                self.prefix.as_str(),
                self.delimiter.as_str(),
            );
            self.parts.push(part);
            i = i + 1;
        }
        match next_token {
            Some(t) => ListingStep::Next(t),
            None => ListingStep::Done,
        }
    }
}

} // verus!
