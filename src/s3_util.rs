use vstd::prelude::*;
use vstd::string::*;
use crate::strutil::{StrUtil, occurs_at, last_occurrence, is_left_trimmed, is_right_trimmed};

verus! {

/// The most keys that one batch-delete call of the store removes.
pub const DELETE_BATCH_SIZE: usize = 10;

/// The views of the batches, one after another.
pub open spec fn flat_batches(batches: Seq<Vec<String>>) -> Seq<String> {
    batches.map_values(|b: Vec<String>| b@).flatten()
}

/// `keys` cut, in order, into batches of `DELETE_BATCH_SIZE`; only the last
/// may be shorter, and none is empty.
pub fn delete_batches(keys: &[String]) -> (r: Vec<Vec<String>>)
    ensures
        flat_batches(r@) == keys@,
        forall|i: int| 0 <= i < r@.len() ==> 1 <= #[trigger] r@[i]@.len() <= DELETE_BATCH_SIZE,
        forall|i: int| 0 <= i < r@.len() - 1 ==> #[trigger] r@[i]@.len() == DELETE_BATCH_SIZE,
{
    let n = keys.len();
    let mut r: Vec<Vec<String>> = Vec::new();
    let mut i: usize = 0;
    proof {
        assert(keys@.take(0) =~= Seq::<String>::empty());
        assert(r@.map_values(|b: Vec<String>| b@) =~= Seq::<Seq<String>>::empty());
    }
    while i < n
        invariant
            n == keys@.len(),
            i <= n,
            flat_batches(r@) == keys@.take(i as int),
            forall|x: int| 0 <= x < r@.len() ==> 1 <= #[trigger] r@[x]@.len() <= DELETE_BATCH_SIZE,
            forall|x: int|
                0 <= x < r@.len() ==> #[trigger] r@[x]@.len() == DELETE_BATCH_SIZE || (x == r@.len()
                    - 1 && i == n),
        decreases n - i,
    {
        let end: usize = if n - i < DELETE_BATCH_SIZE {
            n
        } else {
            i + DELETE_BATCH_SIZE
        };
        let mut batch: Vec<String> = Vec::new();
        let mut j: usize = i;
        while j < end
            invariant
                i <= j <= end <= n,
                n == keys@.len(),
                batch@ == keys@.subrange(i as int, j as int),
            decreases end - j,
        {
            batch.push(keys[j].clone());
            assert(batch@ =~= keys@.subrange(i as int, j + 1));
            j = j + 1;
        }
        let ghost before = r@;
        r.push(batch);
        proof {
            let views = before.map_values(|b: Vec<String>| b@);
            assert(r@.map_values(|b: Vec<String>| b@) =~= views.push(keys@.subrange(i as int, end as int)));
            views.lemma_flatten_push(keys@.subrange(i as int, end as int));
            assert(keys@.take(i as int) + keys@.subrange(i as int, end as int) =~= keys@.take(end as int));
        }
        i = end;
    }
    proof {
        assert(keys@.take(n as int) =~= keys@);
    }
    r
}

/// The copy source of an object as the store names it: bucket, '/', key.
pub fn copy_source(bucket: &str, src_key: &str) -> (r: String)
    ensures
        r@ == bucket@ + seq!['/'] + src_key@,
{
    let mut r = bucket.to_owned();
    r.append("/");
    r.append(src_key);
    proof {
        reveal_strlit("/");
    }
    assert(r@ =~= bucket@ + seq!['/'] + src_key@);
    r
}

/// Where an object moved into directory `dir` goes: `dir` without its
/// trailing slashes, '/', then the key.
pub fn move_destination(dir: &str, src_key: &str) -> (r: String)
    ensures
        exists|d: Seq<char>| is_right_trimmed(dir@, d) && r@ == d + seq!['/'] + src_key@,
{
    let d = dir.trim_right_slash();
    let mut r = d.to_owned();
    r.append("/");
    r.append(src_key);
    proof {
        reveal_strlit("/");
    }
    assert(r@ =~= d@ + seq!['/'] + src_key@);
    r
}

/// The local file that an object is downloaded to: "/tmp/" and what follows
/// the last '/' of its key.
pub fn download_file_name(key: &str) -> (r: String)
    requires
        exists|i: int| occurs_at(key@, seq!['/'], i),
    ensures
        exists|i: int|
            last_occurrence(key@, seq!['/'], i) && r@ == seq!['/', 't', 'm', 'p', '/']
                + key@.subrange(i + 1, key@.len() as int),
{
    proof {
        reveal_strlit("/");
        reveal_strlit("/tmp/");
        assert("/"@ =~= seq!['/']);
        let w = choose|i: int| occurs_at(key@, seq!['/'], i);
        assert(occurs_at(key.text(), "/"@, w));
    }
    let name = key.extract_after_last("/");
    let mut r = "/tmp/".to_owned();
    r.append(name.as_str());
    assert("/tmp/"@ =~= seq!['/', 't', 'm', 'p', '/']);
    r
}

/// Whether `url::Url::parse` accepts the text.
pub uninterp spec fn url_parses(s: Seq<char>) -> bool;

#[verifier::external_type_specification]
#[verifier::external_body]
pub struct ExUrl(url::Url);

/// Relies on url::Url::parse, whose success depends on the text alone; its
/// error is dropped.
#[verifier::external_body]
fn parse_url(uri: &str) -> (r: Option<url::Url>)
    ensures
        r is Some == url_parses(uri@),
{
    url::Url::parse(uri).ok()
}

/// Relies on url::Url::domain: the host, where it is a domain name.
#[verifier::external_body]
fn url_domain(u: &url::Url) -> (r: Option<&str>) {
    u.domain()
}

/// Relies on url::Url::path: the path of the URL.
#[verifier::external_body]
fn url_path(u: &url::Url) -> (r: &str) {
    u.path()
}

/// A bucket and an object path inside it.
pub struct S3Uri {
    bucket: String,
    path: String,
}

impl S3Uri {
    /// The bucket's name.
    pub closed spec fn bucket_view(&self) -> Seq<char> {
        self.bucket@
    }

    /// The object path, without leading slashes.
    pub closed spec fn path_view(&self) -> Seq<char> {
        self.path@
    }

    /// The location with bucket `domain` and the object path `url_path`
    /// without its leading slashes; none where there is no domain.
    pub fn from_parts(domain: Option<&str>, url_path: &str) -> (r: Option<S3Uri>)
        ensures
            r is None <==> domain is None,
            r is Some ==> r->0.bucket_view() == domain->0@ && is_left_trimmed(
                url_path@,
                r->0.path_view(),
            ),
    {
        match domain {
            Some(d) => Some(S3Uri { bucket: d.to_owned(), path: url_path.trim_left_slash().to_owned() }),
            None => None,
        }
    }

    /// Reads a location such as `s3://bucket/dir/file`: the bucket is the
    /// URL's domain, the path its path without leading slashes. None where the
    /// text is no URL or its host is no domain name.
    pub fn parse(uri: &str) -> (r: Option<S3Uri>)
        ensures
            r is Some ==> url_parses(uri@),
            r is Some ==> (r->0.path_view().len() == 0 || r->0.path_view()[0] != '/'),
            !url_parses(uri@) ==> r is None,
    {
        match parse_url(uri) {
            Some(u) => S3Uri::from_parts(url_domain(&u), url_path(&u)),
            None => None,
        }
    }

    pub fn bucket(&self) -> (r: &str)
        ensures
            r@ == self.bucket_view(),
    {
        self.bucket.as_str()
    }

    pub fn path(&self) -> (r: &str)
        ensures
            r@ == self.path_view(),
    {
        self.path.as_str()
    }
}

} // verus!
