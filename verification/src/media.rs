//! Where media files live on disk, and which thumbnail size answers a
//! request.
use vstd::prelude::*;
use vstd::string::StringExecFns;

use crate::admin::replace_char;
use crate::text::{push_char, starts_with};

verus! {

/// `part` appended to the path `base` as a file system path is extended: a
/// part that is absolute replaces the path, and a separator is put between
/// the two where the base does not end with one.
pub open spec fn path_join(base: Seq<char>, part: Seq<char>) -> Seq<char> {
    if part.len() > 0 && part[0] == '/' {
        part
    } else if base.len() == 0 {
        part
    } else if base.last() == '/' {
        base + part
    } else {
        base + seq!['/'] + part
    }
}

fn join(base: &str, part: &str) -> (r: String)
    ensures
        r@ == path_join(base@, part@),
{
    proof {
        reveal_strlit("/");
    }
    let mut out = String::new();
    if starts_with(part, "/") {
        out.append(part);
        assert(part@.take(1)[0] == part@[0]);
        assert(out@ =~= part@);
        return out;
    }
    let n = vstd::string::StrSliceExecFns::unicode_len(base);
    out.append(base);
    if n > 0 && vstd::string::StrSliceExecFns::get_char(base, n - 1) != '/' {
        push_char(&mut out, '/');
    }
    out.append(part);
    proof {
        if part@.len() > 0 {
            assert(part@.take(1) != "/"@ ==> part@[0] != '/') by {
                if part@[0] == '/' {
                    assert(part@.take(1) =~= "/"@);
                }
            }
        }
    }
    assert(out@ =~= path_join(base@, part@));
    out
}

/// The file of the media with key `key`: `media/key` under the server's
/// data directory `space_path`.
pub fn get_media_path(space_path: &str, key: &str) -> (r: String)
    ensures
        r@ == path_join(path_join(space_path@, "media"@), key@),
{
    let dir = join(space_path, "media");
    join(dir.as_str(), key)
}

/// The thumbnail size (and whether it is cropped) for a request of `width`
/// by `height`.
pub open spec fn thumbnail_size(width: u32, height: u32) -> Option<(u32, u32, bool)> {
    if width <= 32 && height <= 32 {
        Some((32u32, 32u32, true))
    } else if width <= 96 && height <= 96 {
        Some((96u32, 96u32, true))
    } else if width <= 320 && height <= 240 {
        Some((320u32, 240u32, false))
    } else if width <= 640 && height <= 480 {
        Some((640u32, 480u32, false))
    } else if width <= 800 && height <= 600 {
        Some((800u32, 600u32, false))
    } else {
        None
    }
}

/// The thumbnail that answers a request for `width` by `height`: the
/// smallest standard size that holds it, and whether it is cropped; none
/// (send the full-size file) beyond 800 by 600.
pub fn thumbnail_properties(width: u32, height: u32) -> (r: Option<(u32, u32, bool)>)
    ensures
        r == thumbnail_size(width, height),
{
    if width <= 32 && height <= 32 {
        Some((32, 32, true))
    } else if width <= 96 && height <= 96 {
        Some((96, 96, true))
    } else if width <= 320 && height <= 240 {
        Some((320, 240, false))
    } else if width <= 640 && height <= 480 {
        Some((640, 480, false))
    } else if width <= 800 && height <= 600 {
        Some((800, 600, false))
    } else {
        None
    }
}

/// The standard thumbnail sizes: 32 by 32 and 96 by 96 cropped, and 320 by
/// 240, 640 by 480 and 800 by 600 scaled.
pub open spec fn standard_thumbnail(w: u32, h: u32, crop: bool) -> bool {
    ||| (w == 32 && h == 32 && crop)
    ||| (w == 96 && h == 96 && crop)
    ||| (w == 320 && h == 240 && !crop)
    ||| (w == 640 && h == 480 && !crop)
    ||| (w == 800 && h == 600 && !crop)
}

/// The thumbnail chosen for a request is a standard size that holds it, and
/// no larger in either direction than any standard size that holds it; there
/// is none exactly when no standard size holds the request.
pub proof fn lemma_thumbnail_smallest(width: u32, height: u32, sw: u32, sh: u32, scrop: bool)
    ensures
        thumbnail_size(width, height) is None <==> (width > 800 || height > 600),
        thumbnail_size(width, height) is Some ==> ({
            let (w, h, c) = thumbnail_size(width, height)->0;
            standard_thumbnail(w, h, c) && width <= w && height <= h
        }),
        standard_thumbnail(sw, sh, scrop) && width <= sw && height <= sh ==> ({
            let (w, h, c) = thumbnail_size(width, height)->0;
            thumbnail_size(width, height) is Some && w <= sw && h <= sh
        }),
{
}

/// A thumbnail is never smaller than what was asked for.
pub proof fn lemma_thumbnail_covers_request(width: u32, height: u32, w: u32, h: u32, crop: bool)
    requires
        thumbnail_size(width, height) == Some((w, h, crop)),
    ensures
        width <= w,
        height <= h,
{
}

/// What an admin asks to delete media by.
#[derive(Debug)]
pub enum DeleteMediaRequest {
    /// One MXC URL.
    Mxc(String),
    /// The media of an event.
    Event(String),
}

/// Why a request to delete media is refused.
#[derive(Debug, PartialEq, Eq, Structural, Clone, Copy)]
pub enum DeleteMediaError {
    /// Both an MXC URL and an event id were given.
    BothGiven,
    /// Neither was given.
    NeitherGiven,
}

/// What to delete: an MXC URL or the media of an event, but not both.
pub fn delete_media_request(mxc: Option<String>, event_id: Option<String>) -> (r: Result<
    DeleteMediaRequest,
    DeleteMediaError,
>)
    ensures
        match (mxc, event_id) {
            (Some(_), Some(_)) => r == Err::<DeleteMediaRequest, DeleteMediaError>(DeleteMediaError::BothGiven),
            (Some(m), None) => r matches Ok(DeleteMediaRequest::Mxc(x)) && x == m,
            (None, Some(e)) => r matches Ok(DeleteMediaRequest::Event(x)) && x == e,
            (None, None) => r == Err::<DeleteMediaRequest, DeleteMediaError>(DeleteMediaError::NeitherGiven),
        },
{
    match (mxc, event_id) {
        (Some(_), Some(_)) => Err(DeleteMediaError::BothGiven),
        (Some(m), None) => Ok(DeleteMediaRequest::Mxc(m)),
        (None, Some(e)) => Ok(DeleteMediaRequest::Event(e)),
        (None, None) => Err(DeleteMediaError::NeitherGiven),
    }
}

/// The MXC URL held by a JSON value written out as `text`: a string that
/// starts with `mxc://` gives its text with the quotes taken out.
pub open spec fn mxc_of(text: Seq<char>) -> Option<Seq<char>> {
    let prefix = "\"mxc://"@;
    if text.len() >= prefix.len() && text.take(prefix.len() as int) == prefix {
        Some(replace_char(text, '"', Seq::empty()))
    } else {
        None
    }
}

/// The MXC URL a JSON value (as written out) holds, if any.
pub fn mxc_from_json_text(text: &str) -> (r: Option<String>)
    ensures
        match mxc_of(text@) {
            Some(u) => r matches Some(s) && s@ == u,
            None => r is None,
        },
{
    proof {
        reveal_strlit("\"mxc://");
    }
    if !starts_with(text, "\"mxc://") {
        return None;
    }
    let n = vstd::string::StrSliceExecFns::unicode_len(text);
    let mut out = String::new();
    let mut i: usize = 0;
    assert(text@.take(0) =~= Seq::<char>::empty());
    while i < n
        invariant
            0 <= i <= n,
            n == text@.len(),
            out@ == replace_char(text@.take(i as int), '"', Seq::empty()),
        decreases n - i,
    {
        let c = vstd::string::StrSliceExecFns::get_char(text, i);
        proof {
            assert(text@.take(i + 1).drop_last() =~= text@.take(i as int));
            assert(text@.take(i + 1).last() == c);
        }
        if c != '"' {
            push_char(&mut out, c);
        } else {
            assert(out@ =~= out@ + Seq::<char>::empty());
        }
        i = i + 1;
    }
    assert(text@.take(n as int) =~= text@);
    Some(out)
}

/// The MXC URLs of an event's media, from its content's `url`, its
/// `info.thumbnail_url` and its `file.url` (each as written out, where
/// present), in that order.
pub fn event_mxc_urls(url: Option<&str>, thumbnail_url: Option<&str>, file_url: Option<&str>) -> (r: Vec<String>)
    ensures
        r@.map_values(|s: String| s@) == found_mxcs(seq![url, thumbnail_url, file_url]),
{
    let mut out: Vec<String> = Vec::new();
    let ghost keys = seq![url, thumbnail_url, file_url];
    assert(keys.take(0) =~= Seq::<Option<&str>>::empty());
    assert(out@.map_values(|s: String| s@) =~= Seq::<Seq<char>>::empty());
    assert(found_mxcs(keys.take(0)) == Seq::<Seq<char>>::empty());
    push_mxc(&mut out, url);
    assert(keys.take(1).drop_last() =~= keys.take(0));
    assert(keys.take(1).last() == url);
    assert(out@.map_values(|s: String| s@) == found_mxcs(keys.take(1)));
    push_mxc(&mut out, thumbnail_url);
    assert(keys.take(2).drop_last() =~= keys.take(1));
    assert(keys.take(2).last() == thumbnail_url);
    assert(out@.map_values(|s: String| s@) == found_mxcs(keys.take(2)));
    push_mxc(&mut out, file_url);
    assert(keys.take(3).drop_last() =~= keys.take(2));
    assert(keys.take(3).last() == file_url);
    assert(keys.take(3) =~= keys);
    out
}

/// The MXC URLs found in the given values, in order.
pub open spec fn found_mxcs(values: Seq<Option<&str>>) -> Seq<Seq<char>>
    decreases values.len(),
{
    if values.len() == 0 {
        Seq::empty()
    } else {
        let prev = found_mxcs(values.drop_last());
        match values.last() {
            Some(t) => match mxc_of(t@) {
                Some(u) => prev.push(u),
                None => prev,
            },
            None => prev,
        }
    }
}

fn push_mxc(out: &mut Vec<String>, value: Option<&str>)
    ensures
        final(out)@.map_values(|s: String| s@) == (match value {
            Some(t) => match mxc_of(t@) {
                Some(u) => old(out)@.map_values(|s: String| s@).push(u),
                None => old(out)@.map_values(|s: String| s@),
            },
            None => old(out)@.map_values(|s: String| s@),
        }),
{
    if let Some(t) = value {
        if let Some(u) = mxc_from_json_text(t) {
            let ghost before = out@.map_values(|s: String| s@);
            let ghost uv = u@;
            out.push(u);
            assert(out@.map_values(|s: String| s@) =~= before.push(uv));
        }
    }
}

} // verus!
