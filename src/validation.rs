//! Which URL paths name a resource that the mirror fetches and saves.

use vstd::prelude::*;
use crate::text::{
    ascii_lower, blank, chars_of, contains, has_char, is_blank, str_equals, str_has_infix,
    sub_chars, to_ascii_lower, contains_char,
};
use crate::urls::{parse_url_parts, path_or_self};
use crate::url_parser::next_slash;

verus! {

/// Validation of resource paths.
pub struct ResourceValidator;

/// Literal fragments that mark a broken or hostile path.
pub open spec fn suspicious(p: Seq<char>) -> bool {
    contains(p, "''"@) || contains(p, "'';"@) || contains(p, "%22%22"@) || contains(p, ";"@)
        || contains(p, "autoStopperFrame.src;"@) || contains(p, "autoStopperSrc;"@) || contains(
        p,
        "'"@,
    )
}

/// Some segment begins with `.` and is not `.well-known`.
pub open spec fn hidden_segment(p: Seq<char>) -> bool {
    exists|i: int|
        0 <= i < p.len() && #[trigger] p[i] == '.' && (i == 0 || p[i - 1] == '/') && p.subrange(
            i,
            next_slash(p, i),
        ) != ".well-known"@
}

pub open spec fn path_char(c: char) -> bool {
    ('a' <= c <= 'z') || ('A' <= c <= 'Z') || ('0' <= c <= '9') || c == '-' || c == '_' || c
        == '/' || c == '.' || c == '%'
}

pub open spec fn path_chars(p: Seq<char>) -> bool {
    forall|i: int| 0 <= i < p.len() ==> path_char(#[trigger] p[i])
}

/// What follows the last `c` in `s`; all of `s` where there is none.
pub open spec fn after_last(s: Seq<char>, c: char) -> Seq<char>
    decreases s.len(),
{
    if s.len() == 0 {
        s
    } else if s.last() == c {
        Seq::<char>::empty()
    } else {
        after_last(s.drop_last(), c).push(s.last())
    }
}

/// The extensions of the files that the mirror keeps.
pub open spec fn allowed_extension(e: Seq<char>) -> bool {
    e == "html"@ || e == "htm"@ || e == "css"@ || e == "js"@ || e == "png"@ || e == "jpg"@ || e
        == "jpeg"@ || e == "svg"@ || e == "gif"@ || e == "webp"@ || e == "pdf"@ || e == "ico"@
        || e == "json"@ || e == "xml"@ || e == "txt"@ || e == "woff"@ || e == "woff2"@ || e
        == "ttf"@ || e == "eot"@ || e == "otf"@ || e == "mp4"@ || e == "webm"@ || e == "ogg"@
        || e == "mp3"@ || e == "wav"@
}

/// A last segment holding a `.` ends in an allowed extension (compared in
/// lower case).
pub open spec fn extension_ok(p: Seq<char>) -> bool {
    let name = after_last(p, '/');
    has_char(name, '.') ==> allowed_extension(ascii_lower(after_last(name, '.')))
}

/// The rules on a resource path.
pub open spec fn valid_path(p: Seq<char>) -> bool {
    !is_blank(p) && !suspicious(p) && !hidden_segment(p) && path_chars(p) && extension_ok(p)
}

/// The rules applied to the URL's path, or to the string itself where it
/// does not parse as a URL.
pub open spec fn valid_resource_url(u: Seq<char>) -> bool {
    valid_path(path_or_self(u))
}

pub fn after_last_exec(s: &[char], c: char) -> (r: Vec<char>)
    ensures
        r@ == after_last(s@, c),
{
    let mut i: usize = s.len();
    while i > 0 && s[i - 1] != c
        invariant
            i <= s.len(),
            forall|k: int| i <= k < s.len() ==> s@[k] != c,
        decreases i,
    {
        i = i - 1;
    }
    proof {
        lemma_after_last(s@, c, i as int);
    }
    sub_chars(s, i, s.len())
}

proof fn lemma_after_last(s: Seq<char>, c: char, i: int)
    requires
        0 <= i <= s.len(),
        forall|k: int| i <= k < s.len() ==> s[k] != c,
        i == 0 || s[i - 1] == c,
    ensures
        after_last(s, c) == s.subrange(i, s.len() as int),
    decreases s.len(),
{
    if s.len() == 0 {
    } else if i == s.len() {
        assert(s.subrange(i, s.len() as int) =~= Seq::<char>::empty());
    } else {
        lemma_after_last(s.drop_last(), c, i);
        assert(s.subrange(i, s.len() as int) =~= s.drop_last().subrange(
            i,
            s.len() - 1,
        ).push(s.last()));
    }
}

fn is_allowed_extension(e: &[char]) -> (r: bool)
    ensures
        r == allowed_extension(e@),
{
    str_equals(e, "html") || str_equals(e, "htm") || str_equals(e, "css") || str_equals(e, "js")
        || str_equals(e, "png") || str_equals(e, "jpg") || str_equals(e, "jpeg") || str_equals(
        e,
        "svg",
    ) || str_equals(e, "gif") || str_equals(e, "webp") || str_equals(e, "pdf") || str_equals(
        e,
        "ico",
    ) || str_equals(e, "json") || str_equals(e, "xml") || str_equals(e, "txt") || str_equals(
        e,
        "woff",
    ) || str_equals(e, "woff2") || str_equals(e, "ttf") || str_equals(e, "eot") || str_equals(
        e,
        "otf",
    ) || str_equals(e, "mp4") || str_equals(e, "webm") || str_equals(e, "ogg") || str_equals(
        e,
        "mp3",
    ) || str_equals(e, "wav")
}

fn has_valid_extension(p: &[char]) -> (r: bool)
    ensures
        r == extension_ok(p@),
{
    let name = after_last_exec(p, '/');
    if !contains_char(name.as_slice(), '.') {
        return true;
    }
    let ext = after_last_exec(name.as_slice(), '.');
    let low = to_ascii_lower(ext.as_slice());
    is_allowed_extension(low.as_slice())
}

fn has_no_suspicious_patterns(p: &[char]) -> (r: bool)
    ensures
        r == !suspicious(p@),
{
    !(str_has_infix(p, "''") || str_has_infix(p, "'';") || str_has_infix(p, "%22%22")
        || str_has_infix(p, ";") || str_has_infix(p, "autoStopperFrame.src;") || str_has_infix(
        p,
        "autoStopperSrc;",
    ) || str_has_infix(p, "'"))
}

fn has_valid_characters(p: &[char]) -> (r: bool)
    ensures
        r == path_chars(p@),
{
    let mut i: usize = 0;
    while i < p.len()
        invariant
            forall|k: int| 0 <= k < i ==> path_char(#[trigger] p@[k]),
        decreases p.len() - i,
    {
        let c = p[i];
        if !(('a' <= c && c <= 'z') || ('A' <= c && c <= 'Z') || ('0' <= c && c <= '9') || c
            == '-' || c == '_' || c == '/' || c == '.' || c == '%') {
            return false;
        }
        i = i + 1;
    }
    true
}

fn has_no_hidden_files(p: &[char]) -> (r: bool)
    ensures
        r == !hidden_segment(p@),
{
    let mut i: usize = 0;
    while i < p.len()
        invariant
            forall|k: int|
                0 <= k < i && #[trigger] p@[k] == '.' && (k == 0 || p@[k - 1] == '/')
                    ==> p@.subrange(k, next_slash(p@, k)) == ".well-known"@,
        decreases p.len() - i,
    {
        if p[i] == '.' && (i == 0 || p[i - 1] == '/') {
            let mut j: usize = i + 1;
            while j < p.len() && p[j] != '/'
                invariant
                    i < j <= p.len(),
                    forall|m: int| i < m < j ==> p@[m] != '/',
                decreases p.len() - j,
            {
                j = j + 1;
            }
            proof {
                crate::url_parser::lemma_next_slash(p@, i as int, j as int);
            }
            let seg = sub_chars(p, i, j);
            if !str_equals(seg.as_slice(), ".well-known") {
                assert(p@[i as int] == '.');
                return false;
            }
        }
        i = i + 1;
    }
    true
}

impl ResourceValidator {
    /// Whether the URL names a resource that may be fetched and saved.
    pub fn is_valid_resource_url(url: &str) -> (r: bool)
        ensures
            r == valid_resource_url(url@),
    {
        let path: Vec<char> = match parse_url_parts(url) {
            Some(p) => chars_of(p.path.as_str()),
            None => chars_of(url),
        };
        Self::is_valid_path(path.as_slice())
    }

    /// Whether a resource path passes every rule.
    pub fn is_valid_path(p: &[char]) -> (r: bool)
        ensures
            r == valid_path(p@),
    {
        !blank(p) && has_no_suspicious_patterns(p) && has_no_hidden_files(p)
            && has_valid_characters(p) && has_valid_extension(p)
    }
}

} // verus!
