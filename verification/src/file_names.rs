//! The name codec and the file-name classifiers.
//!
//! A derived (destination) image name embeds the source file name and, when
//! one is known, its capture timestamp: three spaces, the timestamp with the
//! colons of the time of day replaced by semicolons, one space, the original
//! name, and a final `.jpg`. Without a timestamp the derived name is the
//! original name followed by `.jpg`. Decoding recovers the original name and
//! prefers the timestamp reading whenever the fixed-width prefix is present.
use vstd::prelude::*;

verus! {

/// The decimal digits, as code points.
pub open spec fn is_digit_char(c: char) -> bool {
    48 <= c as u32 <= 57
}

/// A capture timestamp as the metadata reader hands it out:
/// `YYYY-MM-DD HH:MM:SS`, with colons in the time of day.
pub open spec fn valid_timestamp(s: Seq<char>) -> bool {
    &&& s.len() == 19
    &&& is_digit_char(s[0]) && is_digit_char(s[1]) && is_digit_char(s[2]) && is_digit_char(s[3])
    &&& s[4] == '-'
    &&& is_digit_char(s[5]) && is_digit_char(s[6])
    &&& s[7] == '-'
    &&& is_digit_char(s[8]) && is_digit_char(s[9])
    &&& s[10] == ' '
    &&& is_digit_char(s[11]) && is_digit_char(s[12])
    &&& s[13] == ':'
    &&& is_digit_char(s[14]) && is_digit_char(s[15])
    &&& s[16] == ':'
    &&& is_digit_char(s[17]) && is_digit_char(s[18])
}

/// A timestamp as it stands inside a derived name:
/// `YYYY-MM-DD HH;MM;SS`, with semicolons in the time of day.
pub open spec fn valid_semicolon_timestamp(s: Seq<char>) -> bool {
    &&& s.len() == 19
    &&& is_digit_char(s[0]) && is_digit_char(s[1]) && is_digit_char(s[2]) && is_digit_char(s[3])
    &&& s[4] == '-'
    &&& is_digit_char(s[5]) && is_digit_char(s[6])
    &&& s[7] == '-'
    &&& is_digit_char(s[8]) && is_digit_char(s[9])
    &&& s[10] == ' '
    &&& is_digit_char(s[11]) && is_digit_char(s[12])
    &&& s[13] == ';'
    &&& is_digit_char(s[14]) && is_digit_char(s[15])
    &&& s[16] == ';'
    &&& is_digit_char(s[17]) && is_digit_char(s[18])
}

/// Every colon replaced by a semicolon.
pub open spec fn replace_colons_spec(s: Seq<char>) -> Seq<char> {
    Seq::new(s.len(), |i: int| if s[i] == ':' { ';' } else { s[i] })
}

/// The mandatory suffix of every derived image name.
pub open spec fn jpg_suffix() -> Seq<char> {
    seq!['.', 'j', 'p', 'g']
}

/// The fixed-width date prefix of a derived name with a timestamp:
/// three spaces, the semicolon timestamp, one trailing space — 23 characters.
pub open spec fn is_date_prefix(p: Seq<char>) -> bool {
    &&& p.len() == 23
    &&& p[0] == ' ' && p[1] == ' ' && p[2] == ' '
    &&& valid_semicolon_timestamp(p.subrange(3, 22))
    &&& p[22] == ' '
}

/// Builds the derived name for a source file name and optional timestamp.
pub open spec fn encode_spec(name: Seq<char>, timestamp: Option<Seq<char>>) -> Seq<char> {
    match timestamp {
        None => name + jpg_suffix(),
        Some(t) => seq![' ', ' ', ' '] + replace_colons_spec(t) + seq![' '] + name + jpg_suffix(),
    }
}

/// Recovers the original source file name from a derived name, or `None`
/// when the name does not carry the mandatory `.jpg` suffix. When the
/// fixed-width date prefix is present (and something follows it), the prefix
/// reading is preferred, as the encoding produces it.
pub open spec fn decode_spec(derived: Seq<char>) -> Option<Seq<char>> {
    if derived.len() < 5 || derived.subrange(derived.len() - 4, derived.len() as int)
        != jpg_suffix() {
        None
    } else {
        let stem = derived.take(derived.len() - 4);
        if stem.len() > 23 && is_date_prefix(stem.take(23)) {
            Some(stem.skip(23))
        } else {
            Some(stem)
        }
    }
}

/// The index of the last `.` in the name, or `-1` when there is none.
pub open spec fn last_dot_index(s: Seq<char>) -> int
    decreases s.len(),
{
    if s.len() == 0 {
        -1
    } else if s[s.len() - 1] == '.' {
        s.len() - 1
    } else {
        last_dot_index(s.drop_last())
    }
}

/// The extension of a file name, under the standard library's rule: the
/// portion after the last `.`, unless there is no `.`, the only `.` leads
/// the name, or the name is exactly `..`.
pub open spec fn extension_of_spec(name: Seq<char>) -> Option<Seq<char>> {
    if name.len() == 2 && name[0] == '.' && name[1] == '.' {
        None
    } else {
        let i = last_dot_index(name);
        if i <= 0 {
            None
        } else {
            Some(name.skip(i + 1))
        }
    }
}

/// An upper-case ASCII letter folded to lower case, as a code point.
pub open spec fn lower_code(c: char) -> int {
    if 65 <= c as u32 <= 90 {
        c as u32 + 32
    } else {
        c as int
    }
}

/// ASCII-case-insensitive equality of two character sequences.
pub open spec fn matches_ignore_case(s: Seq<char>, t: Seq<char>) -> bool {
    s.len() == t.len() && forall|i: int| 0 <= i < s.len() ==> lower_code(s[i]) == lower_code(t[i])
}

/// The extensions treated as source images.
pub open spec fn is_image_extension(ext: Seq<char>) -> bool {
    ||| matches_ignore_case(ext, seq!['j', 'p', 'g'])
    ||| matches_ignore_case(ext, seq!['j', 'p', 'e', 'g'])
    ||| matches_ignore_case(ext, seq!['p', 'n', 'g'])
    ||| matches_ignore_case(ext, seq!['g', 'i', 'f'])
    ||| matches_ignore_case(ext, seq!['n', 'e', 'f'])
    ||| matches_ignore_case(ext, seq!['t', 'i', 'f'])
    ||| matches_ignore_case(ext, seq!['t', 'i', 'f', 'f'])
}

/// The extensions treated as videos.
pub open spec fn is_video_extension(ext: Seq<char>) -> bool {
    ||| matches_ignore_case(ext, seq!['m', 'o', 'v'])
    ||| matches_ignore_case(ext, seq!['a', 'v', 'i'])
    ||| matches_ignore_case(ext, seq!['m', 'p', '4'])
    ||| matches_ignore_case(ext, seq!['m', '4', 'v'])
    ||| matches_ignore_case(ext, seq!['m', 'p', 'g'])
    ||| matches_ignore_case(ext, seq!['m', 'p', 'e', 'g'])
}

/// The one extension a derived destination image carries.
pub open spec fn is_destination_image_extension(ext: Seq<char>) -> bool {
    matches_ignore_case(ext, seq!['j', 'p', 'g'])
}

/// Law: decoding recovers what encoding embedded. For every non-empty source
/// file name and every capture timestamp in the reader's `YYYY-MM-DD
/// HH:MM:SS` shape — or no timestamp at all, provided the name does not
/// itself begin with something shaped like the fixed-width date prefix —
/// `decode(encode(name, timestamp))` returns the original name.
pub proof fn lemma_decode_encode(name: Seq<char>, timestamp: Option<Seq<char>>)
    requires
        name.len() > 0,
        timestamp matches Some(t) ==> valid_timestamp(t),
        timestamp is None ==> !(name.len() > 23 && is_date_prefix(name.take(23))),
    ensures
        decode_spec(encode_spec(name, timestamp)) == Some(name),
{
    let enc = encode_spec(name, timestamp);
    match timestamp {
        None => {
            assert(enc.len() == name.len() + 4);
            assert(enc.subrange(enc.len() - 4, enc.len() as int) =~= jpg_suffix());
            let stem = enc.take(enc.len() - 4);
            assert(stem =~= name);
            if stem.len() > 23 {
                assert(stem.take(23) =~= name.take(23));
            }
        },
        Some(t) => {
            let rc = replace_colons_spec(t);
            assert(rc.len() == 19);
            assert(enc.len() == 27 + name.len());
            assert(enc.subrange(enc.len() - 4, enc.len() as int) =~= jpg_suffix());
            let stem = enc.take(enc.len() - 4);
            assert(stem.len() == 23 + name.len());
            let prefix = stem.take(23);
            assert(valid_semicolon_timestamp(rc)) by {
                assert(forall|i: int| 0 <= i < 19 ==> rc[i] == if t[i] == ':' {
                    ';'
                } else {
                    t[i]
                });
            }
            assert(prefix.subrange(3, 22) =~= rc);
            assert(is_date_prefix(prefix));
            assert(stem.skip(23) =~= name);
        },
    }
}

/// Every derived name carries exactly the extension `jpg`.
pub proof fn lemma_encode_extension(name: Seq<char>, timestamp: Option<Seq<char>>)
    requires
        name.len() > 0,
    ensures
        extension_of_spec(encode_spec(name, timestamp)) == Some(seq!['j', 'p', 'g']),
{
    let enc = encode_spec(name, timestamp);
    assert(enc.len() >= 5);
    assert(enc[enc.len() - 4] == '.');
    assert(enc[enc.len() - 3] == 'j');
    assert(enc[enc.len() - 2] == 'p');
    assert(enc[enc.len() - 1] == 'g');
    lemma_last_dot_at(enc, enc.len() - 4);
    assert(enc.skip(enc.len() - 3) =~= seq!['j', 'p', 'g']);
}

/// The view of an optional borrowed string.
pub open spec fn opt_str_view(s: Option<&str>) -> Option<Seq<char>> {
    match s {
        Some(t) => Some(t@),
        None => None,
    }
}

fn eq_ignore_ascii_case(a: &str, b: &str) -> (r: bool)
    ensures
        r == matches_ignore_case(a@, b@),
{
    let la = a.unicode_len();
    let lb = b.unicode_len();
    if la != lb {
        return false;
    }
    let mut i: usize = 0;
    while i < la
        invariant
            la == a@.len(),
            lb == b@.len(),
            la == lb,
            i <= la,
            forall|k: int| 0 <= k < i ==> lower_code(a@[k]) == lower_code(b@[k]),
        decreases la - i,
    {
        let ca = a.get_char(i) as u32;
        let cb = b.get_char(i) as u32;
        let fa = if 65 <= ca && ca <= 90 {
            ca + 32
        } else {
            ca
        };
        let fb = if 65 <= cb && cb <= 90 {
            cb + 32
        } else {
            cb
        };
        if fa != fb {
            proof {
                assert(lower_code(a@[i as int]) != lower_code(b@[i as int]));
            }
            return false;
        }
        i += 1;
    }
    true
}

/// Whether the given file-name extension names a source image.
pub fn extension_is_image_extension(extension: &str) -> (r: bool)
    ensures
        r == is_image_extension(extension@),
{
    let r = eq_ignore_ascii_case(extension, "jpg") || eq_ignore_ascii_case(extension, "jpeg")
        || eq_ignore_ascii_case(extension, "png") || eq_ignore_ascii_case(extension, "gif")
        || eq_ignore_ascii_case(extension, "nef") || eq_ignore_ascii_case(extension, "tif")
        || eq_ignore_ascii_case(extension, "tiff");
    proof {
        reveal_strlit("jpg");
        reveal_strlit("jpeg");
        reveal_strlit("png");
        reveal_strlit("gif");
        reveal_strlit("nef");
        reveal_strlit("tif");
        reveal_strlit("tiff");
        assert("jpg"@ =~= seq!['j', 'p', 'g']);
        assert("jpeg"@ =~= seq!['j', 'p', 'e', 'g']);
        assert("png"@ =~= seq!['p', 'n', 'g']);
        assert("gif"@ =~= seq!['g', 'i', 'f']);
        assert("nef"@ =~= seq!['n', 'e', 'f']);
        assert("tif"@ =~= seq!['t', 'i', 'f']);
        assert("tiff"@ =~= seq!['t', 'i', 'f', 'f']);
    }
    r
}

/// Whether the given file-name extension names a video.
pub fn extension_is_video_extension(extension: &str) -> (r: bool)
    ensures
        r == is_video_extension(extension@),
{
    let r = eq_ignore_ascii_case(extension, "mov") || eq_ignore_ascii_case(extension, "avi")
        || eq_ignore_ascii_case(extension, "mp4") || eq_ignore_ascii_case(extension, "m4v")
        || eq_ignore_ascii_case(extension, "mpg") || eq_ignore_ascii_case(extension, "mpeg");
    proof {
        reveal_strlit("mov");
        reveal_strlit("avi");
        reveal_strlit("mp4");
        reveal_strlit("m4v");
        reveal_strlit("mpg");
        reveal_strlit("mpeg");
        assert("mov"@ =~= seq!['m', 'o', 'v']);
        assert("avi"@ =~= seq!['a', 'v', 'i']);
        assert("mp4"@ =~= seq!['m', 'p', '4']);
        assert("m4v"@ =~= seq!['m', '4', 'v']);
        assert("mpg"@ =~= seq!['m', 'p', 'g']);
        assert("mpeg"@ =~= seq!['m', 'p', 'e', 'g']);
    }
    r
}

/// Whether the given file-name extension is the derived-image extension.
pub fn extension_is_destination_image_extension(extension: &str) -> (r: bool)
    ensures
        r == is_destination_image_extension(extension@),
{
    let r = eq_ignore_ascii_case(extension, "jpg");
    proof {
        reveal_strlit("jpg");
        assert("jpg"@ =~= seq!['j', 'p', 'g']);
    }
    r
}

/// The extension of a file name, under the standard library's rule.
pub fn extension_of(name: &str) -> (r: Option<String>)
    ensures
        match r {
            Some(ext) => extension_of_spec(name@) == Some(ext@),
            None => extension_of_spec(name@) is None,
        },
{
    let n = name.unicode_len();
    if n == 2 && name.get_char(0) == '.' && name.get_char(1) == '.' {
        return None;
    }
    let mut j: usize = n;
    while j > 0
        invariant
            j <= n,
            n == name@.len(),
            forall|k: int| j <= k < n ==> name@[k] != '.',
            !(name@.len() == 2 && name@[0] == '.' && name@[1] == '.'),
        decreases j,
    {
        let c = name.get_char(j - 1);
        if c == '.' {
            if j == 1 {
                proof {
                    lemma_last_dot_at(name@, 0);
                }
                return None;
            }
            let ext = name.substring_char(j, n).to_owned();
            proof {
                lemma_last_dot_at(name@, j - 1);
            }
            return Some(ext);
        }
        j -= 1;
    }
    proof {
        lemma_no_dot(name@);
    }
    None
}

proof fn lemma_last_dot_at(s: Seq<char>, i: int)
    requires
        0 <= i < s.len(),
        s[i] == '.',
        forall|k: int| i < k < s.len() ==> s[k] != '.',
    ensures
        last_dot_index(s) == i,
    decreases s.len(),
{
    if i < s.len() - 1 {
        lemma_last_dot_at(s.drop_last(), i);
    }
}

proof fn lemma_no_dot(s: Seq<char>)
    requires
        forall|k: int| 0 <= k < s.len() ==> s[k] != '.',
    ensures
        last_dot_index(s) == -1,
    decreases s.len(),
{
    if s.len() > 0 {
        lemma_no_dot(s.drop_last());
    }
}

fn replace_colons(s: &str) -> (r: String)
    ensures
        r@ == replace_colons_spec(s@),
{
    let n = s.unicode_len();
    let mut r = String::new();
    let mut i: usize = 0;
    while i < n
        invariant
            n == s@.len(),
            i <= n,
            r@ == replace_colons_spec(s@).take(i as int),
        decreases n - i,
    {
        let c = s.get_char(i);
        if c == ':' {
            r.append(";");
            proof {
                reveal_strlit(";");
            }
        } else {
            let piece = s.substring_char(i, i + 1);
            r.append(piece);
        }
        proof {
            assert(r@ =~= replace_colons_spec(s@).take(i + 1));
        }
        i += 1;
    }
    proof {
        assert(r@ =~= replace_colons_spec(s@));
    }
    r
}

/// Builds the derived destination name for a source image: the file name,
/// prefixed with the capture timestamp when one is known, and suffixed with
/// `.jpg`.
pub fn destination_image_name_from_file_name(file_name: &str, date_time: Option<&str>) -> (r:
    String)
    ensures
        r@ == encode_spec(file_name@, opt_str_view(date_time)),
{
    match date_time {
        None => {
            let mut r = String::from_str(file_name);
            r.append(".jpg");
            proof {
                reveal_strlit(".jpg");
                assert(r@ =~= encode_spec(file_name@, opt_str_view(date_time)));
            }
            r
        },
        Some(t) => {
            let mut r = String::from_str("   ");
            let semified = replace_colons(t);
            r.append(semified.as_str());
            r.append(" ");
            r.append(file_name);
            r.append(".jpg");
            proof {
                reveal_strlit("   ");
                reveal_strlit(" ");
                reveal_strlit(".jpg");
                assert(r@ =~= encode_spec(file_name@, opt_str_view(date_time)));
            }
            r
        },
    }
}

fn is_digit_at(s: &str, i: usize) -> (r: bool)
    requires
        i < s@.len(),
    ensures
        r == is_digit_char(s@[i as int]),
{
    let u = s.get_char(i) as u32;
    48 <= u && u <= 57
}

fn has_date_prefix(s: &str) -> (r: bool)
    requires
        s@.len() > 23,
    ensures
        r == is_date_prefix(s@.take(23)),
{
    let r = s.get_char(0) == ' ' && s.get_char(1) == ' ' && s.get_char(2) == ' ' && is_digit_at(
        s,
        3,
    ) && is_digit_at(s, 4) && is_digit_at(s, 5) && is_digit_at(s, 6) && s.get_char(7) == '-'
        && is_digit_at(s, 8) && is_digit_at(s, 9) && s.get_char(10) == '-' && is_digit_at(s, 11)
        && is_digit_at(s, 12) && s.get_char(13) == ' ' && is_digit_at(s, 14) && is_digit_at(s, 15)
        && s.get_char(16) == ';' && is_digit_at(s, 17) && is_digit_at(s, 18) && s.get_char(19)
        == ';' && is_digit_at(s, 20) && is_digit_at(s, 21) && s.get_char(22) == ' ';
    proof {
        let p = s@.take(23);
        let body = p.subrange(3, 22);
        assert forall|k: int| 0 <= k < 19 implies body[k] == s@[k + 3] by {}
        assert forall|k: int| 0 <= k < 23 implies p[k] == s@[k] by {}
    }
    r
}

/// Recovers the original source file name from a derived destination image
/// name. A name too short to be derived, or one missing the `.jpg` suffix,
/// yields `None`. For a well-formed derived name the result is always the
/// encoded source name; for other names carrying the suffix the stem (with
/// a date prefix stripped when one matches exactly) is returned.
pub fn destination_image_name_to_source_image_name(file_name: &str) -> (r: Option<String>)
    ensures
        match r {
            Some(name) => decode_spec(file_name@) == Some(name@),
            None => decode_spec(file_name@) is None,
        },
{
    let l = file_name.unicode_len();
    if l < 5 {
        return None;
    }
    let suffix_ok = file_name.get_char(l - 4) == '.' && file_name.get_char(l - 3) == 'j'
        && file_name.get_char(l - 2) == 'p' && file_name.get_char(l - 1) == 'g';
    proof {
        let sub = file_name@.subrange(l - 4, l as int);
        assert(sub[0] == file_name@[l - 4]);
        assert(sub[1] == file_name@[l - 3]);
        assert(sub[2] == file_name@[l - 2]);
        assert(sub[3] == file_name@[l - 1]);
        if suffix_ok {
            assert(sub =~= jpg_suffix());
        }
    }
    if !suffix_ok {
        return None;
    }
    let ghost stem = file_name@.take(l - 4);
    if l - 4 > 23 && has_date_prefix(file_name) {
        proof {
            assert(stem.take(23) =~= file_name@.take(23));
        }
        let name = file_name.substring_char(23, l - 4).to_owned();
        proof {
            assert(name@ =~= stem.skip(23));
        }
        Some(name)
    } else {
        proof {
            if l - 4 > 23 {
                assert(stem.take(23) =~= file_name@.take(23));
            }
        }
        let name = file_name.substring_char(0, l - 4).to_owned();
        proof {
            assert(name@ =~= stem);
        }
        Some(name)
    }
}

} // verus!
