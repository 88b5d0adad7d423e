use vstd::prelude::*;
use vstd::string::*;
use crate::strutil::{occurs_at, occurs_at_exec};

verus! {

/// `s` with every occurrence of `pat` taken out, scanning from the left and
/// never letting two occurrences overlap.
pub open spec fn remove_all(s: Seq<char>, pat: Seq<char>) -> Seq<char>
    decreases s.len(),
{
    if pat.len() == 0 || s.len() < pat.len() {
        s
    } else if s.take(pat.len() as int) == pat {
        remove_all(s.skip(pat.len() as int), pat)
    } else {
        seq![s[0]] + remove_all(s.skip(1), pat)
    }
}

/// The pieces joined, with `sep` between each two.
pub open spec fn join_with(pieces: Seq<Seq<char>>, sep: char) -> Seq<char>
    decreases pieces.len(),
{
    if pieces.len() == 0 {
        Seq::empty()
    } else if pieces.len() == 1 {
        pieces[0]
    } else {
        join_with(pieces.drop_last(), sep) + seq![sep] + pieces.last()
    }
}

/// The views of some strings.
pub open spec fn views(v: Seq<String>) -> Seq<Seq<char>> {
    v.map_values(|x: String| x@)
}

/// `s` with every occurrence of `pat` taken out.
pub fn remove_all_of(s: &str, pat: &str) -> (r: String)
    requires
        pat@.len() > 0,
    ensures
        r@ == remove_all(s@, pat@),
{
    let n = s.unicode_len();
    let m = pat.unicode_len();
    let mut r = String::new();
    let mut seg: usize = 0;
    let mut i: usize = 0;
    proof {
        assert(s@.skip(0) =~= s@);
        assert(r@ + s@.subrange(0, 0) =~= Seq::<char>::empty());
    }
    while m <= n - i
        invariant
            n == s@.len(),
            m == pat@.len(),
            m > 0,
            seg <= i <= n,
            remove_all(s@, pat@) == r@ + s@.subrange(seg as int, i as int) + remove_all(
                s@.skip(i as int),
                pat@,
            ),
        decreases n - i,
    {
        assert(s@.skip(i as int).take(m as int) =~= s@.subrange(i as int, i + m));
        if occurs_at_exec(s, pat, i) {
            let piece = s.substring_char(seg, i);
            let ghost before = r@;
            r.append(piece);
            assert(s@.skip(i as int).skip(m as int) =~= s@.skip(i + m));
            assert(s@.subrange((i + m) as int, (i + m) as int) =~= Seq::<char>::empty());
            assert(r@ + s@.subrange((i + m) as int, (i + m) as int) =~= before + s@.subrange(
                seg as int,
                i as int,
            ));
            i = i + m;
            seg = i;
        } else {
            assert(s@.skip(i as int).skip(1) =~= s@.skip(i + 1));
            assert(s@.skip(i as int)[0] == s@[i as int]);
            assert(s@.subrange(seg as int, i as int) + seq![s@[i as int]] =~= s@.subrange(
                seg as int,
                i + 1,
            ));
            assert(r@ + s@.subrange(seg as int, i as int) + (seq![s@[i as int]] + remove_all(
                s@.skip(i + 1),
                pat@,
            )) =~= r@ + s@.subrange(seg as int, i + 1) + remove_all(s@.skip(i + 1), pat@));
            i = i + 1;
        }
    }
    let tail = s.substring_char(seg, n);
    let ghost before = r@;
    r.append(tail);
    assert(before + s@.subrange(seg as int, i as int) + s@.skip(i as int) =~= r@);
    r
}

/// Whether a request path is served by the find-at handler.
pub fn is_find_at_route(url_path: &str) -> (r: bool)
    ensures
        r == occurs_at(url_path@, seq!['/', 'f', 'i', 'n', 'd', '-', 'a', 't', '/'], 0),
{
    let route = "/find-at/";
    proof {
        reveal_strlit("/find-at/");
        assert(route@ =~= seq!['/', 'f', 'i', 'n', 'd', '-', 'a', 't', '/']);
    }
    if url_path.unicode_len() < route.unicode_len() {
        return false;
    }
    occurs_at_exec(url_path, route, 0)
}

/// The storage prefix that a find-at request path names: the base path,
/// '/', and the request path with every "/find-at/" taken out.
pub fn find_at_prefix(base_path: &str, url_path: &str) -> (r: String)
    ensures
        r@ == base_path@ + seq!['/'] + remove_all(
            url_path@,
            seq!['/', 'f', 'i', 'n', 'd', '-', 'a', 't', '/'],
        ),
{
    let route = "/find-at/";
    proof {
        reveal_strlit("/find-at/");
        reveal_strlit("/");
        assert(route@ =~= seq!['/', 'f', 'i', 'n', 'd', '-', 'a', 't', '/']);
    }
    let sub_path = remove_all_of(url_path, route);
    let mut r = base_path.to_owned();
    r.append("/");
    r.append(sub_path.as_str());
    assert(r@ =~= base_path@ + seq!['/'] + sub_path@);
    r
}

/// `s` cut at every `sep`: the pieces hold no `sep`, and joined with `sep`
/// they give `s` back. An empty text gives one empty piece.
pub fn split_on(s: &str, sep: char) -> (r: Vec<String>)
    ensures
        r@.len() >= 1,
        join_with(views(r@), sep) == s@,
        forall|k: int| 0 <= k < r@.len() ==> !(#[trigger] r@[k]@).contains(sep),
{
    let n = s.unicode_len();
    let mut r: Vec<String> = Vec::new();
    let mut seg: usize = 0;
    let mut i: usize = 0;
    while i < n
        invariant
            n == s@.len(),
            seg <= i <= n,
            (r@.len() == 0 && seg == 0) || (r@.len() > 0 && join_with(views(r@), sep) + seq![sep]
                == s@.take(seg as int)),
            forall|k: int| seg <= k < i ==> s@[k] != sep,
            forall|k: int| 0 <= k < r@.len() ==> !(#[trigger] r@[k]@).contains(sep),
        decreases n - i,
    {
        if s.get_char(i) == sep {
            let piece = s.substring_char(seg, i).to_owned();
            let ghost before = r@;
            r.push(piece);
            proof {
                assert(views(r@) =~= views(before).push(piece@));
                assert(views(r@).drop_last() =~= views(before));
                assert(s@.take(i + 1) =~= s@.take(seg as int) + piece@ + seq![sep]);
                assert forall|k: int| 0 <= k < r@.len() implies !(#[trigger] r@[k]@).contains(sep) by {
                    if k == before.len() {
                        assert forall|x: int| 0 <= x < piece@.len() implies piece@[x] != sep by {
                            assert(piece@[x] == s@[seg + x]);
                        }
                    } else {
                        assert(r@[k] == before[k]);
                    }
                }
            }
            seg = i + 1;
        }
        i = i + 1;
    }
    let piece = s.substring_char(seg, n).to_owned();
    let ghost before = r@;
    r.push(piece);
    proof {
        assert(views(r@) =~= views(before).push(piece@));
        assert(views(r@).drop_last() =~= views(before));
        assert(s@ =~= s@.take(seg as int) + piece@);
        assert forall|k: int| 0 <= k < r@.len() implies !(#[trigger] r@[k]@).contains(sep) by {
            if k == before.len() {
                assert forall|x: int| 0 <= x < piece@.len() implies piece@[x] != sep by {
                    assert(piece@[x] == s@[seg + x]);
                }
            } else {
                assert(r@[k] == before[k]);
            }
        }
    }
    r
}

} // verus!
