//! Normalising titles and names so that lyric files can be matched to the
//! playing track.
use vstd::prelude::*;
use crate::text::{char_is_whitespace, chars_of, is_white, string_from_chars};
use crate::track::TrackInfo;

verus! {

/// What `str::to_lowercase` gives for a string (Unicode lowercase mapping).
pub uninterp spec fn lowercase(s: Seq<char>) -> Seq<char>;

/// Calls `str::to_lowercase`. The contract only names the result
/// (`lowercase`); the Unicode case mapping is not restated.
#[verifier::external_body]
fn to_lowercase(s: &str) -> (r: String)
    ensures
        r@ == lowercase(s@),
{
    s.to_lowercase()
}

/// The character variants that are treated as the same: traditional forms
/// of 连, 借, 旧 and 没, full-width parentheses, and the ideographic space.
pub open spec fn fold_variant(c: char) -> char {
    if c == '連' {
        '连'
    } else if c == '藉' {
        '借'
    } else if c == '舊' {
        '旧'
    } else if c == '沒' {
        '没'
    } else if c == '（' {
        '('
    } else if c == '）' {
        ')'
    } else if c == '　' {
        ' '
    } else {
        c
    }
}

/// The words of `s` (its maximal runs of non-whitespace) joined by single
/// spaces, as `split_whitespace` followed by `join(" ")` gives them.
pub open spec fn collapse_whitespace(s: Seq<char>) -> Seq<char>
    decreases s.len(),
{
    if s.len() == 0 {
        Seq::empty()
    } else {
        let prev = collapse_whitespace(s.drop_last());
        let c = s.last();
        if is_white(c) {
            prev
        } else if s.len() >= 2 && !is_white(s[s.len() - 2]) {
            prev.push(c)
        } else if prev.len() > 0 {
            prev.push(' ').push(c)
        } else {
            prev.push(c)
        }
    }
}

/// Text whose whitespace is already squeezed, save perhaps a last
/// whitespace character: it does not begin with whitespace, no two
/// whitespace characters stand side by side, and each of them is a space.
pub open spec fn squeezed(t: Seq<char>) -> bool {
    &&& t.len() == 0 || !is_white(t[0])
    &&& forall|i: int| 0 <= i < t.len() && is_white(#[trigger] t[i]) ==> t[i] == ' '
    &&& forall|i: int| 0 <= i < t.len() - 1 ==> !(is_white(#[trigger] t[i]) && is_white(t[i + 1]))
}

/// A word character added after a word character joins its word; after
/// whitespace it starts a new word; whitespace adds nothing.
proof fn lemma_collapse_squeezed(s: Seq<char>)
    ensures
        squeezed(collapse_whitespace(s)),
        collapse_whitespace(s).len() == 0 || !is_white(collapse_whitespace(s).last()),
        s.len() > 0 && !is_white(s.last()) ==> collapse_whitespace(s).len() > 0,
    decreases s.len(),
{
    if s.len() > 0 {
        let d = s.drop_last();
        lemma_collapse_squeezed(d);
        let prev = collapse_whitespace(d);
        let c = s.last();
        let r = collapse_whitespace(s);
        if !is_white(c) {
            if s.len() >= 2 && !is_white(s[s.len() - 2]) {
                assert(d.last() == s[s.len() - 2]);
                assert(r == prev.push(c));
                assert forall|i: int| 0 <= i < r.len() - 1 implies !(is_white(#[trigger] r[i]) && is_white(
                    r[i + 1],
                )) by {
                    if i < prev.len() - 1 {
                        assert(r[i] == prev[i] && r[i + 1] == prev[i + 1]);
                    }
                }
                assert forall|i: int| 0 <= i < r.len() && is_white(#[trigger] r[i]) implies r[i] == ' ' by {
                    if i < prev.len() {
                        assert(r[i] == prev[i]);
                    }
                }
            } else if prev.len() > 0 {
                assert(r == prev.push(' ').push(c));
                assert forall|i: int| 0 <= i < r.len() - 1 implies !(is_white(#[trigger] r[i]) && is_white(
                    r[i + 1],
                )) by {
                    if i < prev.len() - 1 {
                        assert(r[i] == prev[i] && r[i + 1] == prev[i + 1]);
                    } else if i == prev.len() - 1 {
                        assert(r[i] == prev.last());
                    }
                }
                assert forall|i: int| 0 <= i < r.len() && is_white(#[trigger] r[i]) implies r[i] == ' ' by {
                    if i < prev.len() {
                        assert(r[i] == prev[i]);
                    }
                }
                assert(r[0] == prev[0]);
            } else {
                assert(r == prev.push(c));
                assert(r.len() == 1);
            }
        }
    }
}

/// Collapsing squeezed text drops at most its last whitespace character.
proof fn lemma_collapse_of_squeezed(t: Seq<char>)
    requires
        squeezed(t),
    ensures
        collapse_whitespace(t) == (if t.len() > 0 && is_white(t.last()) {
            t.drop_last()
        } else {
            t
        }),
    decreases t.len(),
{
    if t.len() > 0 {
        let d = t.drop_last();
        let c = t.last();
        assert(squeezed(d)) by {
            if d.len() > 0 {
                assert(d[0] == t[0]);
            }
            assert forall|i: int| 0 <= i < d.len() && is_white(#[trigger] d[i]) implies d[i] == ' ' by {
                assert(d[i] == t[i]);
            }
            assert forall|i: int| 0 <= i < d.len() - 1 implies !(is_white(#[trigger] d[i]) && is_white(
                d[i + 1],
            )) by {
                assert(d[i] == t[i] && d[i + 1] == t[i + 1]);
            }
        }
        lemma_collapse_of_squeezed(d);
        if is_white(c) {
            assert(t.len() >= 2);
            assert(!is_white(t[t.len() - 2]));
            assert(d.last() == t[t.len() - 2]);
        } else if t.len() >= 2 && !is_white(t[t.len() - 2]) {
            assert(d.last() == t[t.len() - 2]);
            assert(d.push(c) =~= t);
        } else if t.len() >= 2 {
            assert(d.last() == t[t.len() - 2]);
            assert(d.last() == ' ');
            assert(d.len() >= 2);
            assert(d.drop_last().len() > 0);
            assert(d.drop_last().push(' ').push(c) =~= t);
        } else {
            assert(d.len() == 0);
            assert(d.push(c) =~= t);
        }
    }
}

/// Squeezing whitespace leaves no whitespace at either end, never two
/// whitespace characters side by side, and only spaces as whitespace; and
/// squeezing again changes nothing.
pub proof fn lemma_collapse_whitespace_idempotent(s: Seq<char>)
    ensures
        ({
            let r = collapse_whitespace(s);
            &&& collapse_whitespace(r) == r
            &&& r.len() == 0 || (!is_white(r[0]) && !is_white(r.last()))
            &&& forall|i: int| 0 <= i < r.len() - 1 ==> !(is_white(#[trigger] r[i]) && is_white(r[i + 1]))
            &&& forall|i: int| 0 <= i < r.len() && is_white(#[trigger] r[i]) ==> r[i] == ' '
        }),
{
    lemma_collapse_squeezed(s);
    lemma_collapse_of_squeezed(collapse_whitespace(s));
}

/// What `normalize_for_match` and `normalize_filename_for_match` give has no
/// whitespace at either end, never two whitespace characters side by side,
/// and no whitespace but spaces.
pub proof fn lemma_normalize_for_match_spacing(s: Seq<char>)
    ensures
        ({
            let r = normalized(s);
            &&& r.len() == 0 || (!is_white(r[0]) && !is_white(r.last()))
            &&& forall|i: int| 0 <= i < r.len() - 1 ==> !(is_white(#[trigger] r[i]) && is_white(r[i + 1]))
            &&& forall|i: int| 0 <= i < r.len() && is_white(#[trigger] r[i]) ==> r[i] == ' '
        }),
        ({
            let r = normalized_filename(s);
            &&& r.len() == 0 || (!is_white(r[0]) && !is_white(r.last()))
            &&& forall|i: int| 0 <= i < r.len() - 1 ==> !(is_white(#[trigger] r[i]) && is_white(r[i + 1]))
            &&& forall|i: int| 0 <= i < r.len() && is_white(#[trigger] r[i]) ==> r[i] == ' '
        }),
{
    lemma_collapse_whitespace_idempotent(lowercase(s.map_values(|c: char| fold_variant(c))));
    let f = s.map_values(|c: char| dash_to_space(c));
    lemma_collapse_whitespace_idempotent(lowercase(f.map_values(|c: char| fold_variant(c))));
}

/// Normalising a normalised text again changes nothing, as long as
/// lowercasing leaves that text as it is and it holds none of the folded
/// variants.
pub proof fn lemma_normalize_for_match_idempotent_when(s: Seq<char>)
    requires
        lowercase(normalized(s)) == normalized(s),
        forall|i: int| 0 <= i < normalized(s).len() ==> fold_variant(#[trigger] normalized(s)[i]) == normalized(s)[i],
    ensures
        normalized(normalized(s)) == normalized(s),
{
    let t = normalized(s);
    assert(t.map_values(|c: char| fold_variant(c)) =~= t);
    lemma_collapse_whitespace_idempotent(lowercase(s.map_values(|c: char| fold_variant(c))));
}

/// The form in which names and titles are compared: variants folded,
/// lowercased, whitespace runs collapsed to single spaces and trimmed.
pub open spec fn normalized(s: Seq<char>) -> Seq<char> {
    collapse_whitespace(lowercase(s.map_values(|c: char| fold_variant(c))))
}

/// `-` and `_` read as spaces, as in file names.
pub open spec fn dash_to_space(c: char) -> char {
    if c == '-' || c == '_' {
        ' '
    } else {
        c
    }
}

/// The form in which file names are compared.
pub open spec fn normalized_filename(s: Seq<char>) -> Seq<char> {
    normalized(s.map_values(|c: char| dash_to_space(c)))
}

fn collapse_chars(s: &[char]) -> (r: Vec<char>)
    ensures
        r@ == collapse_whitespace(s@),
{
    let mut out: Vec<char> = Vec::new();
    let mut i: usize = 0;
    assert(s@.take(0) =~= Seq::<char>::empty());
    while i < s.len()
        invariant
            i <= s@.len(),
            out@ == collapse_whitespace(s@.take(i as int)),
        decreases s@.len() - i,
    {
        let c = s[i];
        let ghost t = s@.take(i + 1);
        assert(t.drop_last() =~= s@.take(i as int));
        assert(t.last() == c);
        if char_is_whitespace(c) {
        } else if i >= 1 && !char_is_whitespace(s[i - 1]) {
            assert(t[t.len() - 2] == s@[i - 1]);
            out.push(c);
        } else {
            if i >= 1 {
                assert(t[t.len() - 2] == s@[i - 1]);
            }
            if out.len() > 0 {
                out.push(' ');
            }
            out.push(c);
        }
        i = i + 1;
    }
    assert(s@.take(i as int) =~= s@);
    out
}

fn normalize_chars(s: &[char]) -> (r: String)
    ensures
        r@ == normalized(s@),
{
    let mut folded: Vec<char> = Vec::new();
    let mut i: usize = 0;
    while i < s.len()
        invariant
            i <= s@.len(),
            folded@ == s@.take(i as int).map_values(|c: char| fold_variant(c)),
        decreases s@.len() - i,
    {
        let c = s[i];
        let f = if c == '連' {
            '连'
        } else if c == '藉' {
            '借'
        } else if c == '舊' {
            '旧'
        } else if c == '沒' {
            '没'
        } else if c == '（' {
            '('
        } else if c == '）' {
            ')'
        } else if c == '　' {
            ' '
        } else {
            c
        };
        folded.push(f);
        i = i + 1;
        assert(folded@ =~= s@.take(i as int).map_values(|c: char| fold_variant(c)));
    }
    assert(s@.take(i as int) =~= s@);
    let folded_text = string_from_chars(folded.as_slice());
    let lowered = to_lowercase(folded_text.as_str());
    squeeze_whitespace(lowered.as_str())
}

/// The words of `text` joined by single spaces: whitespace runs become one
/// space, and none is left at either end.
pub fn squeeze_whitespace(text: &str) -> (r: String)
    ensures
        r@ == collapse_whitespace(text@),
{
    let cs = chars_of(text);
    let collapsed = collapse_chars(cs.as_slice());
    string_from_chars(collapsed.as_slice())
}

/// Normalises a title or a name for matching: traditional variants of a
/// few characters and full-width brackets and spaces are folded, the text
/// is lowercased, and its words are joined by single spaces.
pub fn normalize_for_match(text: &str) -> (r: String)
    ensures
        r@ == normalized(text@),
{
    let cs = chars_of(text);
    normalize_chars(cs.as_slice())
}

/// Normalises a file name for matching: `-` and `_` count as spaces, then
/// as `normalize_for_match`.
pub fn normalize_filename_for_match(text: &str) -> (r: String)
    ensures
        r@ == normalized_filename(text@),
{
    let cs = chars_of(text);
    let mut spaced: Vec<char> = Vec::new();
    let mut i: usize = 0;
    while i < cs.len()
        invariant
            cs@ == text@,
            i <= cs@.len(),
            spaced@ == cs@.take(i as int).map_values(|c: char| dash_to_space(c)),
        decreases cs@.len() - i,
    {
        let c = cs[i];
        spaced.push(if c == '-' || c == '_' { ' ' } else { c });
        i = i + 1;
        assert(spaced@ =~= cs@.take(i as int).map_values(|c: char| dash_to_space(c)));
    }
    assert(cs@.take(i as int) =~= cs@);
    normalize_chars(spaced.as_slice())
}

/// The normalised first artist of a track, or nothing when it has none.
pub open spec fn first_artist_key(artists: Seq<String>) -> Seq<char> {
    if artists.len() > 0 {
        normalized(artists[0]@)
    } else {
        Seq::empty()
    }
}

/// The key that identifies a track's lyrics: normalised title, `::`,
/// normalised first artist.
pub open spec fn cache_key(title: Seq<char>, artists: Seq<String>) -> Seq<char> {
    normalized(title) + seq![':', ':'] + first_artist_key(artists)
}

fn first_artist_normalized(track: &TrackInfo) -> (r: String)
    ensures
        r@ == first_artist_key(track.artists@),
{
    if track.artists.len() > 0 {
        normalize_for_match(track.artists[0].as_str())
    } else {
        String::new()
    }
}

/// The key under which the lyrics of a track are kept:
/// `normalised title::normalised first artist`.
pub fn track_cache_key(track: &TrackInfo) -> (r: String)
    ensures
        r@ == cache_key(track.title@, track.artists@),
{
    let title = chars_of(normalize_for_match(track.title.as_str()).as_str());
    let artist = chars_of(first_artist_normalized(track).as_str());
    let mut key: Vec<char> = title;
    key.push(':');
    key.push(':');
    crate::text::append_chars(&mut key, artist.as_slice());
    assert(key@ =~= cache_key(track.title@, track.artists@));
    string_from_chars(key.as_slice())
}

/// `needle` occurs in `hay` as a contiguous run (an empty needle always).
pub open spec fn contains_run(hay: Seq<char>, needle: Seq<char>) -> bool {
    exists|i: int| 0 <= i <= hay.len() - needle.len() && #[trigger] hay.subrange(i, i + needle.len()) == needle
}

fn contains_chars(hay: &[char], needle: &[char]) -> (b: bool)
    ensures
        b == contains_run(hay@, needle@),
{
    if needle.len() > hay.len() {
        return false;
    }
    if needle.len() == 0 {
        assert(hay@.subrange(0int, 0int + needle@.len()) =~= needle@);
        return true;
    }
    let n = hay.len();
    let last = n - needle.len();
    let mut i: usize = 0;
    while i <= last
        invariant
            n == hay@.len(),
            needle@.len() > 0,
            last == hay@.len() - needle@.len(),
            i <= last + 1,
            forall|j: int| 0 <= j < i ==> #[trigger] hay@.subrange(j, j + needle@.len()) != needle@,
        decreases last + 1 - i,
    {
        let mut k: usize = 0;
        let mut same = true;
        while k < needle.len()
            invariant
                n == hay@.len(),
                i <= last,
                last == hay@.len() - needle@.len(),
                k <= needle@.len(),
                same ==> forall|j: int| 0 <= j < k ==> hay@[i + j] == needle@[j],
                !same ==> hay@.subrange(i as int, i + needle@.len()) != needle@,
            decreases needle@.len() - k,
        {
            if hay[i + k] != needle[k] {
                assert(hay@.subrange(i as int, i + needle@.len())[k as int] != needle@[k as int]);
                same = false;
            }
            k = k + 1;
        }
        if same {
            assert(hay@.subrange(i as int, i + needle@.len()) =~= needle@);
            return true;
        }
        i = i + 1;
    }
    proof {
        assert forall|j: int| 0 <= j <= hay@.len() - needle@.len() implies #[trigger] hay@.subrange(j, j + needle@.len()) != needle@ by {}
    }
    false
}

/// Whether a file in the folder of imported lyrics holds the lyrics of
/// `track`: its extension is `lrc` or `yrc` and its normalised name contains
/// both the normalised first artist and the normalised title.
pub open spec fn imported_file_matches(extension: Seq<char>, stem: Seq<char>, title: Seq<char>, artists: Seq<String>) -> bool {
    &&& (extension == seq!['l', 'r', 'c'] || extension == seq!['y', 'r', 'c'])
    &&& contains_run(normalized_filename(stem), first_artist_key(artists))
    &&& contains_run(normalized_filename(stem), normalized(title))
}

/// Tests a file of the imported-lyrics folder against the playing track (see
/// `imported_file_matches`); `extension` and `stem` are empty when the file
/// name has none.
pub fn imported_lyric_matches(extension: &str, stem: &str, track: &TrackInfo) -> (b: bool)
    ensures
        b == imported_file_matches(extension@, stem@, track.title@, track.artists@),
{
    let ext = chars_of(extension);
    let lrc = ['l', 'r', 'c'];
    let yrc = ['y', 'r', 'c'];
    assert(lrc@ =~= seq!['l', 'r', 'c']);
    assert(yrc@ =~= seq!['y', 'r', 'c']);
    let is_lrc = chars_equal(ext.as_slice(), &lrc);
    let is_yrc = chars_equal(ext.as_slice(), &yrc);
    if !is_lrc && !is_yrc {
        return false;
    }
    let name = chars_of(normalize_filename_for_match(stem).as_str());
    let artist = chars_of(first_artist_normalized(track).as_str());
    let title = chars_of(normalize_for_match(track.title.as_str()).as_str());
    contains_chars(name.as_slice(), artist.as_slice()) && contains_chars(name.as_slice(), title.as_slice())
}

fn chars_equal(a: &[char], b: &[char]) -> (r: bool)
    ensures
        r == (a@ == b@),
{
    if a.len() != b.len() {
        return false;
    }
    let mut i: usize = 0;
    while i < a.len()
        invariant
            a@.len() == b@.len(),
            i <= a@.len(),
            forall|j: int| 0 <= j < i ==> a@[j] == b@[j],
        decreases a@.len() - i,
    {
        if a[i] != b[i] {
            return false;
        }
        i = i + 1;
    }
    assert(a@ =~= b@);
    true
}

/// Whether the track recorded beside a cached lyric file is the playing
/// track: same normalised title, and same normalised first artist (or
/// neither has one).
pub open spec fn cached_track_matches(cached_title: Seq<char>, cached_artists: Seq<String>, title: Seq<char>, artists: Seq<String>) -> bool {
    &&& normalized(cached_title) == normalized(title)
    &&& (cached_artists.len() > 0) == (artists.len() > 0)
    &&& (cached_artists.len() > 0 ==> normalized(cached_artists[0]@) == normalized(artists[0]@))
}

/// Tests the track recorded beside a cached lyric file against the playing
/// track (see `cached_track_matches`).
pub fn cached_lyric_matches(cached_title: &str, cached_artists: &Vec<String>, track: &TrackInfo) -> (b: bool)
    ensures
        b == cached_track_matches(cached_title@, cached_artists@, track.title@, track.artists@),
{
    let same_title = normalize_for_match(cached_title) == normalize_for_match(track.title.as_str());
    let same_artist = if cached_artists.len() > 0 && track.artists.len() > 0 {
        normalize_for_match(cached_artists[0].as_str()) == normalize_for_match(track.artists[0].as_str())
    } else {
        cached_artists.len() == 0 && track.artists.len() == 0
    };
    same_title && same_artist
}

} // verus!

verus! {

/// A cached lyric file is taken for the playing track exactly when their
/// normalised titles are equal and so are their normalised first artists,
/// or neither has an artist: the lyrics of a song of the same title by
/// another artist are never taken, nor those of a song with a different
/// title.
pub proof fn lemma_cached_match_needs_title_and_artist(
    cached_title: Seq<char>,
    cached_artists: Seq<String>,
    title: Seq<char>,
    artists: Seq<String>,
)
    ensures
        normalized(cached_title) != normalized(title) ==> !cached_track_matches(
            cached_title,
            cached_artists,
            title,
            artists,
        ),
        cached_artists.len() > 0 && artists.len() > 0 && normalized(cached_artists[0]@) != normalized(
            artists[0]@,
        ) ==> !cached_track_matches(cached_title, cached_artists, title, artists),
        (cached_artists.len() > 0) != (artists.len() > 0) ==> !cached_track_matches(
            cached_title,
            cached_artists,
            title,
            artists,
        ),
        normalized(cached_title) == normalized(title) && cached_artists.len() > 0 && artists.len() > 0
            && normalized(cached_artists[0]@) == normalized(artists[0]@) ==> cached_track_matches(
            cached_title,
            cached_artists,
            title,
            artists,
        ),
        normalized(cached_title) == normalized(title) && cached_artists.len() == 0 && artists.len() == 0
            ==> cached_track_matches(cached_title, cached_artists, title, artists),
{
}

/// An extension of lyric files: `lrc` or `yrc`.
pub open spec fn imported_name_ok(extension: Seq<char>) -> bool {
    (extension.len() == 3 && extension[0] == 'l' && extension[1] == 'r' && extension[2] == 'c') || (
    extension.len() == 3 && extension[0] == 'y' && extension[1] == 'r' && extension[2] == 'c')
}

/// `part` stands in `name` as one run of characters.
pub open spec fn holds_run(name: Seq<char>, part: Seq<char>) -> bool {
    exists|i: int| 0 <= i && i + part.len() <= name.len() && #[trigger] name.subrange(i, i + part.len()) == part
}

/// An imported file is taken for the playing track only when it is an
/// `.lrc` or `.yrc` file and its normalised name holds, each as one run of
/// characters, the normalised title and the normalised first artist (the
/// empty text when the track has none); and it is taken whenever all that
/// holds.
pub proof fn lemma_imported_match_needs_title_and_artist(
    extension: Seq<char>,
    stem: Seq<char>,
    title: Seq<char>,
    artists: Seq<String>,
)
    ensures
        imported_file_matches(extension, stem, title, artists) == (imported_name_ok(extension)
            && holds_run(normalized_filename(stem), if artists.len() > 0 {
            normalized(artists[0]@)
        } else {
            Seq::<char>::empty()
        }) && holds_run(normalized_filename(stem), normalized(title))),
{
    let name = normalized_filename(stem);
    lemma_holds_run(name, first_artist_key(artists));
    lemma_holds_run(name, normalized(title));
    let l = seq!['l', 'r', 'c'];
    let y = seq!['y', 'r', 'c'];
    if imported_name_ok(extension) {
        if extension[0] == 'l' {
            assert(extension =~= l);
        } else {
            assert(extension =~= y);
        }
    }
    if extension == l {
        assert(extension[0] == 'l' && extension[1] == 'r' && extension[2] == 'c');
    }
    if extension == y {
        assert(extension[0] == 'y' && extension[1] == 'r' && extension[2] == 'c');
    }
}

proof fn lemma_holds_run(name: Seq<char>, part: Seq<char>)
    ensures
        holds_run(name, part) == contains_run(name, part),
{
    if holds_run(name, part) {
        let i = choose|i: int| 0 <= i && i + part.len() <= name.len() && #[trigger] name.subrange(i, i + part.len()) == part;
        assert(name.subrange(i, i + part.len()) == part);
    }
    if contains_run(name, part) {
        let i = choose|i: int| 0 <= i <= name.len() - part.len() && #[trigger] name.subrange(i, i + part.len()) == part;
        assert(name.subrange(i, i + part.len()) == part);
    }
}

} // verus!
