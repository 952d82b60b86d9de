//! Where the source data comes from: the address of a dataset's release
//! asset, the release tag in a redirect, the file a download is cached in and
//! the validators kept beside it, and the directory all of it is cached under.

use crate::common::Dataset;
use crate::finder::text_view;
use vstd::prelude::*;
use vstd::string::*;

verus! {

/// The project the boundaries are released by.
pub const REPO: &'static str = "https://github.com/evansiroky/timezone-boundary-builder";

/// A string's characters.
pub fn chars_of(s: &str) -> (chars: Vec<char>)
    ensures
        chars@ == s@,
{
    let n: usize = s.unicode_len();
    let mut out: Vec<char> = Vec::new();
    while out.len() < n
        invariant
            n == s@.len(),
            out@.len() <= n,
            forall|i: int| 0 <= i < out@.len() ==> out@[i] == s@[i],
        decreases n - out@.len(),
    {
        let c = s.get_char(out.len());
        out.push(c);
    }
    assert(out@ =~= s@);
    out
}

/// What the ocean cover adds to a release asset's name.
pub open spec fn oceans_part(dataset: Dataset) -> Seq<char> {
    if dataset.covers_oceans() {
        "-with-oceans"@
    } else {
        ""@
    }
}

/// What the zone set adds to a release asset's name: nothing for the
/// comprehensive set.
pub open spec fn zones_part(dataset: Dataset) -> Seq<char> {
    match dataset {
        Dataset::Now | Dataset::NowLandOnly => "-now"@,
        Dataset::Since1970 | Dataset::Since1970LandOnly => "-1970"@,
        Dataset::All | Dataset::AllLandOnly => ""@,
    }
}

/// The address of a dataset's asset in a release.
pub open spec fn url_text(dataset: Dataset, release: Seq<char>) -> Seq<char> {
    REPO@ + "/releases/download/"@ + release + "/timezones"@ + oceans_part(dataset) + zones_part(
        dataset,
    ) + ".geojson.zip"@
}

/// Builds the address of the release asset for a dataset, pinned to `release`
/// so that the bytes and the header tag cannot skew.
#[must_use]
pub fn dataset_url(dataset: Dataset, release: &str) -> (url: String)
    ensures
        url@ == url_text(dataset, release@),
{
    let oceans = if dataset.oceans() {
        "-with-oceans"
    } else {
        ""
    };
    let zones = match dataset {
        Dataset::Now | Dataset::NowLandOnly => "-now",
        Dataset::Since1970 | Dataset::Since1970LandOnly => "-1970",
        Dataset::All | Dataset::AllLandOnly => "",
    };
    let mut url = String::from_str(REPO);
    url.append("/releases/download/");
    url.append(release);
    url.append("/timezones");
    url.append(oceans);
    url.append(zones);
    url.append(".geojson.zip");
    url
}

/// Whether `what` stands at `at` in `s`.
pub open spec fn stands_at(s: Seq<char>, what: Seq<char>, at: int) -> bool {
    0 <= at && at + what.len() <= s.len() && s.subrange(at, at + what.len()) == what
}

/// The first place from `at` on where `what` stands in `s`.
pub open spec fn found_from(s: Seq<char>, what: Seq<char>, at: int) -> Option<int>
    decreases s.len() - at,
{
    if at < 0 || at + what.len() > s.len() {
        None
    } else if stands_at(s, what, at) {
        Some(at)
    } else if at >= s.len() {
        None
    } else {
        found_from(s, what, at + 1)
    }
}

/// The text without the slashes at its start.
pub open spec fn without_leading(s: Seq<char>) -> Seq<char>
    decreases s.len(),
{
    if s.len() > 0 && s[0] == '/' {
        without_leading(s.skip(1))
    } else {
        s
    }
}

/// The text without the slashes at its end.
pub open spec fn without_trailing(s: Seq<char>) -> Seq<char>
    decreases s.len(),
{
    if s.len() > 0 && s.last() == '/' {
        without_trailing(s.drop_last())
    } else {
        s
    }
}

/// The tag that a `…/releases/tag/<tag>` redirect names: what follows the
/// first such path, without slashes at either end, unless nothing is left.
pub open spec fn tag_of(location: Seq<char>) -> Option<Seq<char>> {
    match found_from(location, "/releases/tag/"@, 0) {
        Some(at) => {
            let tag = without_trailing(without_leading(location.skip(at + "/releases/tag/"@.len())));
            if tag.len() > 0 {
                Some(tag)
            } else {
                None
            }
        },
        None => None,
    }
}

/// Whether `what` stands at `at`.
fn is_at(s: &Vec<char>, what: &Vec<char>, at: usize) -> (is: bool)
    requires
        at + what@.len() <= s@.len(),
    ensures
        is == stands_at(s@, what@, at as int),
{
    let total: usize = s.len();
    let mut i: usize = 0;
    while i < what.len()
        invariant
            i <= what@.len(),
            at + what@.len() <= s@.len(),
            s@.len() == total,
            forall|k: int| 0 <= k < i ==> s@[at + k] == what@[k],
        decreases what@.len() - i,
    {
        if s[at + i] != what[i] {
            proof {
                assert(s@.subrange(at as int, at + what@.len())[i as int] == s@[at + i]);
            }
            return false;
        }
        i = i + 1;
    }
    assert(s@.subrange(at as int, at + what@.len()) =~= what@);
    true
}

/// The first place where `what` stands in `s`.
fn find(s: &Vec<char>, what: &Vec<char>) -> (at: Option<usize>)
    ensures
        match at {
            Some(i) => found_from(s@, what@, 0) == Some(i as int),
            None => found_from(s@, what@, 0) is None,
        },
{
    let (n, m) = (s.len(), what.len());
    if m > n {
        return None;
    }
    let mut i: usize = 0;
    while i <= n - m
        invariant
            n == s@.len(),
            m == what@.len(),
            m <= n,
            i <= n - m + 1,
            n < usize::MAX || i <= n,
            found_from(s@, what@, 0) == found_from(s@, what@, i as int),
        decreases n - i + 1,
    {
        if is_at(s, what, i) {
            return Some(i);
        }
        if i == n {
            return None;
        }
        i = i + 1;
    }
    None
}

/// Trimming slashes off the start moves the start over them.
proof fn lemma_leading(s: Seq<char>, from: int, k: int)
    requires
        0 <= from <= k <= s.len(),
        forall|i: int| from <= i < k ==> s[i] == '/',
        k < s.len() ==> s[k] != '/',
    ensures
        without_leading(s.skip(from)) == s.skip(k),
    decreases k - from,
{
    if from < k {
        assert(s.skip(from).skip(1) =~= s.skip(from + 1));
        assert(s.skip(from)[0] == s[from]);
        lemma_leading(s, from + 1, k);
    } else if k < s.len() {
        assert(s.skip(from)[0] == s[k]);
    }
}

/// Trimming slashes off the end moves the end over them.
proof fn lemma_trailing(s: Seq<char>, from: int, end: int, to: int)
    requires
        0 <= from <= end <= to <= s.len(),
        forall|i: int| end <= i < to ==> s[i] == '/',
        from < end ==> s[end - 1] != '/',
    ensures
        without_trailing(s.subrange(from, to)) == s.subrange(from, end),
    decreases to - end,
{
    if end < to {
        assert(s.subrange(from, to).drop_last() =~= s.subrange(from, to - 1));
        assert(s.subrange(from, to).last() == s[to - 1]);
        lemma_trailing(s, from, end, to - 1);
    } else if from < to {
        assert(s.subrange(from, to).last() == s[to - 1]);
    }
}

/// The tag that a redirect's location names, if any.
pub fn tag_in(location: &str) -> (tag: Option<&str>)
    ensures
        match tag {
            Some(tag) => tag_of(location@) == Some(tag@),
            None => tag_of(location@) is None,
        },
{
    let s = chars_of(location);
    let what = chars_of("/releases/tag/");
    let at: usize = match find(&s, &what) {
        Some(i) => i,
        None => return None,
    };
    proof {
        lemma_found_fits(s@, what@, 0);
    }
    let n: usize = s.len();
    let first: usize = at + what.len();
    let mut from: usize = first;
    while from < n && s[from] == '/'
        invariant
            first <= from <= n,
            n == s@.len(),
            forall|i: int| first <= i < from ==> s@[i] == '/',
        decreases n - from,
    {
        from = from + 1;
    }
    let mut end: usize = n;
    while end > from && s[end - 1] == '/'
        invariant
            from <= end <= n,
            n == s@.len(),
            forall|i: int| end <= i < n ==> s@[i] == '/',
        decreases end,
    {
        end = end - 1;
    }
    proof {
        lemma_leading(s@, first as int, from as int);
        assert(s@.skip(from as int) =~= s@.subrange(from as int, n as int));
        lemma_trailing(s@, from as int, end as int, n as int);
    }
    if from < end {
        Some(location.substring_char(from, end))
    } else {
        None
    }
}

/// What is found lies within the text.
proof fn lemma_found_fits(s: Seq<char>, what: Seq<char>, at: int)
    ensures
        found_from(s, what, at) matches Some(i) ==> at <= i && i + what.len() <= s.len(),
    decreases s.len() - at,
{
    if 0 <= at && at + what.len() <= s.len() && !stands_at(s, what, at) && at < s.len() {
        lemma_found_fits(s, what, at + 1);
    }
}

/// The release an asset is tagged with: a pin that is not empty wins over the
/// latest release that was found, that one over a cached tag, and without any
/// of them the asset is tagged `dev`.
pub open spec fn release_text(
    pin: Option<Seq<char>>,
    latest: Option<Seq<char>>,
    cached: Option<Seq<char>>,
) -> Seq<char> {
    if pin is Some && pin->0.len() > 0 {
        pin->0
    } else if latest is Some {
        latest->0
    } else if cached is Some && cached->0.len() > 0 {
        cached->0
    } else {
        "dev"@
    }
}

/// The release an asset is tagged with; see `release_text`.
pub fn choose_release(pin: Option<&str>, latest: Option<&str>, cached: Option<&str>) -> (tag: String)
    ensures
        tag@ == release_text(text_view(pin), text_view(latest), text_view(cached)),
{
    if let Some(tag) = pin {
        if !tag.is_empty() {
            return String::from_str(tag);
        }
    }
    if let Some(tag) = latest {
        return String::from_str(tag);
    }
    if let Some(tag) = cached {
        if !tag.is_empty() {
            return String::from_str(tag);
        }
    }
    String::from_str("dev")
}

/// Where the last path segment of the first `n` characters starts.
pub open spec fn segment_start(s: Seq<char>, n: int) -> int
    decreases n,
{
    if n <= 0 {
        0
    } else if s[n - 1] == '/' {
        n
    } else {
        segment_start(s, n - 1)
    }
}

/// The last path segment of an address.
pub open spec fn last_segment(url: Seq<char>) -> Seq<char> {
    url.skip(segment_start(url, url.len() as int))
}

/// The name of the file that an address is cached in, `None` for an address
/// that ends in a slash.
pub fn url_file_name(url: &str) -> (name: Option<&str>)
    ensures
        match name {
            Some(name) => name@ == last_segment(url@) && name@.len() > 0,
            None => last_segment(url@).len() == 0,
        },
{
    let s = chars_of(url);
    let n: usize = s.len();
    let mut from: usize = n;
    while from > 0 && s[from - 1] != '/'
        invariant
            from <= n,
            n == s@.len(),
            segment_start(s@, n as int) == segment_start(s@, from as int),
        decreases from,
    {
        from = from - 1;
    }
    assert(s@.skip(from as int) =~= s@.subrange(from as int, n as int));
    if from < n {
        Some(url.substring_char(from, n))
    } else {
        None
    }
}

/// The directories a cache may stand in, in order of preference.
#[derive(Clone, Copy, PartialEq, Eq, Structural, Debug)]
pub enum CacheRoot {
    /// the directory given for the purpose
    Given,
    /// the per-user cache directory
    UserCache,
    /// the platform's local application data
    LocalData,
    /// the home directory
    Home,
    /// the build output directory
    BuildOutput,
    /// the current directory
    Current,
}

/// The directory the cache stands in: the first in order that is available.
/// A per-user cache directory counts only if it is absolute.
pub fn cache_root(
    given: bool,
    absolute_user_cache: bool,
    local_data: bool,
    home: bool,
    build_output: bool,
) -> (root: CacheRoot)
    ensures
        root == if given {
            CacheRoot::Given
        } else if absolute_user_cache {
            CacheRoot::UserCache
        } else if local_data {
            CacheRoot::LocalData
        } else if home {
            CacheRoot::Home
        } else if build_output {
            CacheRoot::BuildOutput
        } else {
            CacheRoot::Current
        },
{
    if given {
        CacheRoot::Given
    } else if absolute_user_cache {
        CacheRoot::UserCache
    } else if local_data {
        CacheRoot::LocalData
    } else if home {
        CacheRoot::Home
    } else if build_output {
        CacheRoot::BuildOutput
    } else {
        CacheRoot::Current
    }
}

/// A character's number, capital ASCII letters counted as small ones.
pub open spec fn folded(c: char) -> int {
    if 'A' <= c && c <= 'Z' {
        c as int + 32
    } else {
        c as int
    }
}

/// Whether two strings are equal but for the case of ASCII letters.
pub open spec fn same_folded(a: Seq<char>, b: Seq<char>) -> bool {
    a.len() == b.len() && forall|i: int|
        0 <= i < a.len() ==> folded(#[trigger] a[i]) == folded(b[i])
}

/// Whether an entry's extension is one of those wanted.
pub open spec fn is_wanted(extension: Option<String>, wanted: Seq<&str>) -> bool {
    extension matches Some(text) && exists|k: int|
        0 <= k < wanted.len() && same_folded(text@, (#[trigger] wanted[k])@)
}

/// The extensions that boundary files have.
pub fn boundary_extensions() -> (wanted: Vec<&'static str>)
    ensures
        wanted@.len() == 2,
        wanted@[0]@ == "json"@,
        wanted@[1]@ == "geojson"@,
{
    let mut wanted: Vec<&'static str> = Vec::new();
    wanted.push("json");
    wanted.push("geojson");
    wanted
}

/// The extensions that population rasters have.
pub fn raster_extensions() -> (wanted: Vec<&'static str>)
    ensures
        wanted@.len() == 1,
        wanted@[0]@ == "tif"@,
{
    let mut wanted: Vec<&'static str> = Vec::new();
    wanted.push("tif");
    wanted
}

/// A character's number, capital ASCII letters counted as small ones.
fn fold(c: char) -> (n: u32)
    ensures
        n == folded(c),
{
    if 'A' <= c && c <= 'Z' {
        c as u32 + 32
    } else {
        c as u32
    }
}

/// Whether two strings are equal but for the case of ASCII letters.
fn equal_folded(a: &str, b: &str) -> (same: bool)
    ensures
        same == same_folded(a@, b@),
{
    let (x, y) = (chars_of(a), chars_of(b));
    if x.len() != y.len() {
        return false;
    }
    let mut i: usize = 0;
    while i < x.len()
        invariant
            i <= x@.len(),
            x@ == a@,
            y@ == b@,
            x@.len() == y@.len(),
            forall|k: int| 0 <= k < i ==> folded(#[trigger] x@[k]) == folded(y@[k]),
        decreases x@.len() - i,
    {
        if fold(x[i]) != fold(y[i]) {
            assert(folded(a@[i as int]) != folded(b@[i as int]));
            return false;
        }
        i = i + 1;
    }
    true
}

/// The first of an archive's entries, given by their extensions, that is wanted.
pub fn first_wanted(extensions: &[Option<String>], wanted: &[&str]) -> (at: Option<usize>)
    ensures
        match at {
            Some(i) => i < extensions@.len() && is_wanted(extensions@[i as int], wanted@)
                && forall|j: int|
                0 <= j < i ==> !is_wanted(#[trigger] extensions@[j], wanted@),
            None => forall|j: int|
                0 <= j < extensions@.len() ==> !is_wanted(#[trigger] extensions@[j], wanted@),
        },
{
    let mut i: usize = 0;
    while i < extensions.len()
        invariant
            i <= extensions@.len(),
            forall|j: int| 0 <= j < i ==> !is_wanted(#[trigger] extensions@[j], wanted@),
        decreases extensions@.len() - i,
    {
        if let Some(text) = &extensions[i] {
            let mut k: usize = 0;
            while k < wanted.len()
                invariant
                    i < extensions@.len(),
                    extensions@[i as int] == Some(*text),
                    k <= wanted@.len(),
                    forall|j: int| 0 <= j < i ==> !is_wanted(#[trigger] extensions@[j], wanted@),
                    forall|j: int| 0 <= j < k ==> !same_folded(text@, (#[trigger] wanted@[j])@),
                decreases wanted@.len() - k,
            {
                if equal_folded(text.as_str(), wanted[k]) {
                    assert(same_folded(text@, wanted@[k as int]@));
                    return Some(i);
                }
                k = k + 1;
            }
        }
        i = i + 1;
    }
    None
}

/// What is found is the first place where the text stands.
proof fn lemma_found_first(s: Seq<char>, what: Seq<char>, at: int)
    requires
        0 <= at,
    ensures
        found_from(s, what, at) matches Some(i) ==> at <= i && stands_at(s, what, i) && forall|j: int|
            at <= j < i ==> !#[trigger] stands_at(s, what, j),
        found_from(s, what, at) is None ==> forall|j: int|
            at <= j ==> !#[trigger] stands_at(s, what, j),
    decreases s.len() - at,
{
    if at + what.len() <= s.len() && !stands_at(s, what, at) && at < s.len() {
        lemma_found_first(s, what, at + 1);
    }
}

/// Whether a text is slashes alone.
pub open spec fn all_slashes(s: Seq<char>) -> bool {
    forall|i: int| 0 <= i < s.len() ==> s[i] == '/'
}

/// Trimming a text's start takes off slashes alone, and every one of them.
proof fn lemma_trim_start(s: Seq<char>) -> (head: Seq<char>)
    ensures
        all_slashes(head),
        s == head + without_leading(s),
        without_leading(s).len() > 0 ==> without_leading(s)[0] != '/',
    decreases s.len(),
{
    if s.len() > 0 && s[0] == '/' {
        let rest = lemma_trim_start(s.skip(1));
        let head = seq!['/'] + rest;
        assert(s =~= seq!['/'] + s.skip(1));
        assert(s =~= head + without_leading(s));
        head
    } else {
        assert(s =~= Seq::<char>::empty() + s);
        Seq::empty()
    }
}

/// Trimming a text's end takes off slashes alone, and every one of them.
proof fn lemma_trim_end(s: Seq<char>) -> (tail: Seq<char>)
    ensures
        all_slashes(tail),
        s == without_trailing(s) + tail,
        without_trailing(s).len() > 0 ==> without_trailing(s).last() != '/',
        without_trailing(s).len() > 0 ==> without_trailing(s)[0] == s[0],
    decreases s.len(),
{
    if s.len() > 0 && s.last() == '/' {
        let rest = lemma_trim_end(s.drop_last());
        let tail = rest.push('/');
        assert(s =~= s.drop_last().push('/'));
        assert(s =~= without_trailing(s) + tail);
        tail
    } else {
        assert(s =~= s + Seq::<char>::empty());
        Seq::empty()
    }
}

/// Whether a location is some text, `/releases/tag/` for the first time, and
/// then a tag between slashes.
pub open spec fn names_tag(
    location: Seq<char>,
    before: Seq<char>,
    head: Seq<char>,
    tag: Seq<char>,
    tail: Seq<char>,
) -> bool {
    &&& location == before + "/releases/tag/"@ + head + tag + tail
    &&& forall|j: int| 0 <= j < before.len() ==> !#[trigger] stands_at(location, "/releases/tag/"@, j)
    &&& all_slashes(head)
    &&& all_slashes(tail)
}

/// A redirect's tag is what stands behind the first `/releases/tag/` but for
/// the slashes at either end of it; there is none where that path is missing or
/// slashes alone follow it.
pub proof fn lemma_tag_stands_between_slashes(location: Seq<char>)
    ensures
        tag_of(location) matches Some(tag) ==> tag.len() > 0 && tag[0] != '/' && tag[tag.len() - 1]
            != '/' && exists|before: Seq<char>, head: Seq<char>, tail: Seq<char>| #[trigger]
            names_tag(location, before, head, tag, tail),
        tag_of(location) is None ==> (forall|j: int|
            0 <= j ==> !#[trigger] stands_at(location, "/releases/tag/"@, j)) || exists|
            before: Seq<char>,
            head: Seq<char>,
        | #[trigger] names_tag(location, before, head, Seq::empty(), Seq::empty()),
{
    let what = "/releases/tag/"@;
    lemma_found_first(location, what, 0);
    lemma_found_fits(location, what, 0);
    match found_from(location, what, 0) {
        Some(at) => {
            let before = location.take(at);
            let rest = location.skip(at + what.len());
            let head = lemma_trim_start(rest);
            let inner = without_leading(rest);
            let tail = lemma_trim_end(inner);
            let tag = without_trailing(inner);
            assert(location =~= before + location.subrange(at, at + what.len()) + rest);
            assert(location == before + what + rest);
            if tag.len() > 0 {
                assert(location =~= before + what + head + tag + tail);
                assert(names_tag(location, before, head, tag, tail));
            } else {
                assert(inner =~= tail);
                if inner.len() > 0 {
                    assert(inner[0] == tail[0]);
                }
                assert(location =~= before + what + head + Seq::<char>::empty()
                    + Seq::<char>::empty());
                assert(names_tag(location, before, head, Seq::empty(), Seq::empty()));
            }
        },
        None => {},
    }
}

/// A segment starts behind the last slash.
proof fn lemma_segment_start(s: Seq<char>, n: int)
    requires
        0 <= n <= s.len(),
    ensures
        0 <= segment_start(s, n) <= n,
        segment_start(s, n) > 0 ==> s[segment_start(s, n) - 1] == '/',
        forall|i: int| segment_start(s, n) <= i < n ==> s[i] != '/',
    decreases n,
{
    if n > 0 && s[n - 1] != '/' {
        lemma_segment_start(s, n - 1);
    }
}

/// The last segment of an address holds no slash, ends the address, and starts
/// it or follows a slash.
pub proof fn lemma_last_segment_follows_the_last_slash(url: Seq<char>)
    ensures
        last_segment(url).len() <= url.len(),
        url.skip(url.len() - last_segment(url).len()) == last_segment(url),
        forall|i: int| 0 <= i < last_segment(url).len() ==> last_segment(url)[i] != '/',
        last_segment(url).len() == url.len() || url[url.len() - last_segment(url).len() - 1] == '/',
{
    let n = url.len() as int;
    lemma_segment_start(url, n);
    let at = segment_start(url, n);
    assert(last_segment(url).len() == n - at);
    assert forall|i: int| 0 <= i < last_segment(url).len() implies last_segment(url)[i] != '/' by {
        assert(last_segment(url)[i] == url[at + i]);
    }
}

/// A pin that says something decides alone; without one, a release that was
/// found does, then a cached tag that says something, and else it is `dev`.
pub proof fn lemma_release_is_the_first_said(
    pin: Option<Seq<char>>,
    latest: Option<Seq<char>>,
    cached: Option<Seq<char>>,
    tag: Seq<char>,
)
    ensures
        tag.len() > 0 ==> release_text(Some(tag), latest, cached) == tag,
        release_text(Some(Seq::empty()), latest, cached) == release_text(None, latest, cached),
        release_text(None, Some(tag), cached) == tag,
        tag.len() > 0 ==> release_text(None, None, Some(tag)) == tag,
        release_text(None, None, Some(Seq::empty())) == "dev"@,
        release_text(None, None, None) == "dev"@,
        release_text(pin, latest, cached) == "dev"@ || pin == Some(
            release_text(pin, latest, cached),
        ) || latest == Some(release_text(pin, latest, cached)) || cached == Some(
            release_text(pin, latest, cached),
        ),
{
}

/// An asset's address is the project's, the release, and a file name that says
/// the zone set and whether oceans are covered.
pub proof fn lemma_addresses_by_dataset(release: Seq<char>)
    ensures
        ({
            let base = "https://github.com/evansiroky/timezone-boundary-builder/releases/download/"@
                + release;
            &&& url_text(Dataset::Now, release) == base
                + "/timezones-with-oceans-now.geojson.zip"@
            &&& url_text(Dataset::NowLandOnly, release) == base + "/timezones-now.geojson.zip"@
            &&& url_text(Dataset::Since1970, release) == base
                + "/timezones-with-oceans-1970.geojson.zip"@
            &&& url_text(Dataset::Since1970LandOnly, release) == base
                + "/timezones-1970.geojson.zip"@
            &&& url_text(Dataset::All, release) == base + "/timezones-with-oceans.geojson.zip"@
            &&& url_text(Dataset::AllLandOnly, release) == base + "/timezones.geojson.zip"@
        }),
{
    reveal_strlit("https://github.com/evansiroky/timezone-boundary-builder/releases/download/");
    reveal_strlit("https://github.com/evansiroky/timezone-boundary-builder");
    reveal_strlit("/releases/download/");
    let start = "https://github.com/evansiroky/timezone-boundary-builder"@ + "/releases/download/"@;
    assert(start
        =~= "https://github.com/evansiroky/timezone-boundary-builder/releases/download/"@);
    let base = start + release;
    lemma_file_names();
    assert(url_text(Dataset::Now, release) =~= base + ("/timezones"@ + "-with-oceans"@ + "-now"@
        + ".geojson.zip"@));
    assert(url_text(Dataset::NowLandOnly, release) =~= base + ("/timezones"@ + ""@ + "-now"@
        + ".geojson.zip"@));
    assert(url_text(Dataset::Since1970, release) =~= base + ("/timezones"@ + "-with-oceans"@
        + "-1970"@ + ".geojson.zip"@));
    assert(url_text(Dataset::Since1970LandOnly, release) =~= base + ("/timezones"@ + ""@ + "-1970"@
        + ".geojson.zip"@));
    assert(url_text(Dataset::All, release) =~= base + ("/timezones"@ + "-with-oceans"@ + ""@
        + ".geojson.zip"@));
    assert(url_text(Dataset::AllLandOnly, release) =~= base + ("/timezones"@ + ""@ + ""@
        + ".geojson.zip"@));
}

/// The assets' file names, put together.
proof fn lemma_file_names()
    ensures
        "/timezones"@ + "-with-oceans"@ + "-now"@ + ".geojson.zip"@
            == "/timezones-with-oceans-now.geojson.zip"@,
        "/timezones"@ + ""@ + "-now"@ + ".geojson.zip"@ == "/timezones-now.geojson.zip"@,
        "/timezones"@ + "-with-oceans"@ + "-1970"@ + ".geojson.zip"@
            == "/timezones-with-oceans-1970.geojson.zip"@,
        "/timezones"@ + ""@ + "-1970"@ + ".geojson.zip"@ == "/timezones-1970.geojson.zip"@,
        "/timezones"@ + "-with-oceans"@ + ""@ + ".geojson.zip"@
            == "/timezones-with-oceans.geojson.zip"@,
        "/timezones"@ + ""@ + ""@ + ".geojson.zip"@ == "/timezones.geojson.zip"@,
{
    reveal_strlit("/timezones");
    reveal_strlit("-with-oceans");
    reveal_strlit("-now");
    reveal_strlit("-1970");
    reveal_strlit("");
    reveal_strlit(".geojson.zip");
    reveal_strlit("/timezones-with-oceans-now.geojson.zip");
    reveal_strlit("/timezones-now.geojson.zip");
    reveal_strlit("/timezones-with-oceans-1970.geojson.zip");
    reveal_strlit("/timezones-1970.geojson.zip");
    reveal_strlit("/timezones-with-oceans.geojson.zip");
    reveal_strlit("/timezones.geojson.zip");
    assert("/timezones"@ + "-with-oceans"@ + "-now"@ + ".geojson.zip"@
        =~= "/timezones-with-oceans-now.geojson.zip"@);
    assert("/timezones"@ + ""@ + "-now"@ + ".geojson.zip"@ =~= "/timezones-now.geojson.zip"@);
    assert("/timezones"@ + "-with-oceans"@ + "-1970"@ + ".geojson.zip"@
        =~= "/timezones-with-oceans-1970.geojson.zip"@);
    assert("/timezones"@ + ""@ + "-1970"@ + ".geojson.zip"@ =~= "/timezones-1970.geojson.zip"@);
    assert("/timezones"@ + "-with-oceans"@ + ""@ + ".geojson.zip"@
        =~= "/timezones-with-oceans.geojson.zip"@);
    assert("/timezones"@ + ""@ + ""@ + ".geojson.zip"@ =~= "/timezones.geojson.zip"@);
}

/// Two characters fold alike where they are the same, or the same ASCII letter
/// in either case.
pub proof fn lemma_folding_ignores_ascii_case(a: Seq<char>, b: Seq<char>)
    ensures
        same_folded(a, b) <==> a.len() == b.len() && forall|i: int|
            0 <= i < a.len() ==> #[trigger] a[i] == b[i] || ('A' <= a[i] && a[i] <= 'Z' && b[i] as int
                == a[i] as int + 32) || ('A' <= b[i] && b[i] <= 'Z' && a[i] as int == b[i] as int
                + 32),
{
    assert forall|i: int| 0 <= i < a.len() && a.len() == b.len() implies (folded(#[trigger] a[i])
        == folded(b[i])) == (a[i] == b[i] || ('A' <= a[i] && a[i] <= 'Z' && b[i] as int == a[i] as int
        + 32) || ('A' <= b[i] && b[i] <= 'Z' && a[i] as int == b[i] as int + 32)) by {}
}

} // verus!
