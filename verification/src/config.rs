//! The integer side of the configuration file: the frame rate and its
//! accepted range, and `~` expansion of hand-written paths.
use vstd::prelude::*;
use crate::assets::join_path;
use crate::text::{chars_of, has_prefix, starts_with, slice_chars, string_of};

verus! {

/// The frame rate used when the file does not name one.
pub const DEFAULT_FPS: u32 = 30;

/// Lowest frame rate accepted from the file; lower values are raised to it.
pub const FPS_MIN: u32 = 10;

/// Highest frame rate accepted from the file; higher values are lowered to it.
pub const FPS_MAX: u32 = 240;

/// The frame rate of a file without an `fps` key.
pub fn default_fps() -> (r: u32)
    ensures
        r == DEFAULT_FPS,
{
    DEFAULT_FPS
}

pub open spec fn spec_clamp_fps(fps: u32) -> u32 {
    if fps < FPS_MIN {
        FPS_MIN
    } else if fps > FPS_MAX {
        FPS_MAX
    } else {
        fps
    }
}

/// A hand-written frame rate pulled into `FPS_MIN..=FPS_MAX` (zero would
/// make the frame interval infinite).
pub fn clamp_fps(fps: u32) -> (r: u32)
    ensures
        r == spec_clamp_fps(fps),
        FPS_MIN <= r <= FPS_MAX,
        FPS_MIN <= fps <= FPS_MAX ==> r == fps,
{
    if fps < FPS_MIN {
        FPS_MIN
    } else if fps > FPS_MAX {
        FPS_MAX
    } else {
        fps
    }
}

pub open spec fn home_prefix() -> Seq<char> {
    seq!['~', '/']
}

/// `value` with a leading `~/` replaced by the home directory; unchanged
/// when it has no such prefix or no home is known. What follows `~/` is
/// joined as `Path::join` does, so an absolute remainder stands alone.
pub open spec fn spec_expand_path(value: Seq<char>, home: Option<Seq<char>>) -> Seq<char> {
    match home {
        Some(h) if has_prefix(value, home_prefix()) => {
            let rest = value.skip(2);
            if rest.len() > 0 && rest[0] == '/' {
                rest
            } else {
                join_path(h, rest)
            }
        },
        _ => value,
    }
}

/// Expands a leading `~` of a path written in the configuration file;
/// `home` is the value of `HOME`, when set.
pub fn expand_path(value: &str, home: Option<&str>) -> (r: String)
    ensures
        r@ == spec_expand_path(
            value@,
            match home {
                Some(h) => Some(h@),
                None => None,
            },
        ),
{
    let chars = chars_of(value);
    let tilde = vec!['~', '/'];
    assert(tilde@ == home_prefix());
    match home {
        Some(h) => {
            if starts_with(&chars, &tilde) {
                let n = chars.len();
                let rest = slice_chars(&chars, 2, n);
                assert(rest@ == value@.skip(2));
                if rest.len() > 0 && rest[0] == '/' {
                    string_of(&rest)
                } else {
                    let rest_str = string_of(&rest);
                    crate::assets::join_path_str(h, rest_str.as_str())
                }
            } else {
                string_of(&chars)
            }
        },
        None => string_of(&chars),
    }
}

} // verus!
