//! The path of the default source.
use vstd::prelude::*;
use vstd::string::*;
use crate::streaming::DEFAULT_SPOOFED_AUDIO_PATH;
use crate::text::{same_text, starts_with};

verus! {

/// Where the default source of a test has to lie.
pub const TEST_DEFAULT_WAV_PATH_PREFIX: &'static str = "/data/local/tmp/";

/// Whether a character is white space, in the sense of Unicode's `White_Space` property.
pub open spec fn is_white_space(c: char) -> bool {
    ||| 0x09 <= c as u32 <= 0x0d
    ||| c as u32 == 0x20
    ||| c as u32 == 0x85
    ||| c as u32 == 0xa0
    ||| c as u32 == 0x1680
    ||| 0x2000 <= c as u32 <= 0x200a
    ||| c as u32 == 0x2028
    ||| c as u32 == 0x2029
    ||| c as u32 == 0x202f
    ||| c as u32 == 0x205f
    ||| c as u32 == 0x3000
}

/// A text without the white space that it begins with.
pub open spec fn trimmed_start(s: Seq<char>) -> Seq<char>
    decreases s.len(),
{
    if s.len() > 0 && is_white_space(s[0]) {
        trimmed_start(s.drop_first())
    } else {
        s
    }
}

/// A text without the white space that it ends with.
pub open spec fn trimmed_end(s: Seq<char>) -> Seq<char>
    decreases s.len(),
{
    if s.len() > 0 && is_white_space(s.last()) {
        trimmed_end(s.drop_last())
    } else {
        s
    }
}

/// A text without the white space around it.
pub open spec fn trimmed(s: Seq<char>) -> Seq<char> {
    trimmed_end(trimmed_start(s))
}

/// `str::trim` returns the text without leading and trailing white space.
pub assume_specification[ str::trim ](s: &str) -> (r: &str)
    ensures
        r@ == trimmed(s@),
;

/// The path of the default source.
///
/// A device that can be debugged may name another than the built-in one, if it lies where tests
/// keep their files.
pub open spec fn default_audio_path(debuggable: Option<Seq<char>>, path: Option<Seq<char>>) -> Seq<
    char,
> {
    if debuggable == Some("1"@) && (path matches Some(p) && TEST_DEFAULT_WAV_PATH_PREFIX@.is_prefix_of(
        trimmed(p),
    )) {
        trimmed(path->0)
    } else {
        DEFAULT_SPOOFED_AUDIO_PATH@
    }
}

/// The characters of a property, if it is set.
pub open spec fn property_text(property: Option<String>) -> Option<Seq<char>> {
    match property {
        Some(s) => Some(s@),
        None => None,
    }
}

/// Computes [`default_audio_path`] from the two system properties.
pub fn resolve_default_audio_path(debuggable: Option<String>, path: Option<String>) -> (r: String)
    ensures
        r@ == default_audio_path(property_text(debuggable), property_text(path)),
{
    let is_debuggable = match &debuggable {
        Some(value) => same_text(value.as_str(), "1"),
        None => false,
    };
    if !is_debuggable {
        return DEFAULT_SPOOFED_AUDIO_PATH.to_owned();
    }
    match &path {
        None => DEFAULT_SPOOFED_AUDIO_PATH.to_owned(),
        Some(path) => {
            let trimmed = path.as_str().trim();
            if !starts_with(trimmed, TEST_DEFAULT_WAV_PATH_PREFIX) {
                return DEFAULT_SPOOFED_AUDIO_PATH.to_owned();
            }
            trimmed.to_owned()
        },
    }
}

/// Whether a device that can be debugged names a source that may not be played.
pub open spec fn is_name_ignored(debuggable: Option<Seq<char>>, path: Option<Seq<char>>) -> bool {
    debuggable == Some("1"@) && (path matches Some(p) && trimmed(p).len() > 0
        && !TEST_DEFAULT_WAV_PATH_PREFIX@.is_prefix_of(trimmed(p)))
}

/// Whether a device that can be debugged names a source that may not be played.
pub fn ignores_named_source(debuggable: &Option<String>, path: &Option<String>) -> (r: bool)
    ensures
        r == is_name_ignored(property_text(*debuggable), property_text(*path)),
        r == (property_text(*debuggable) == Some("1"@) && (property_text(*path) matches Some(p)
            && trimmed(p).len() > 0 && !TEST_DEFAULT_WAV_PATH_PREFIX@.is_prefix_of(trimmed(p)))),
{
    let is_debuggable = match debuggable {
        Some(value) => same_text(value.as_str(), "1"),
        None => false,
    };
    match path {
        None => false,
        Some(path) => {
            let trimmed = path.as_str().trim();
            is_debuggable && trimmed.unicode_len() > 0 && !starts_with(
                trimmed,
                TEST_DEFAULT_WAV_PATH_PREFIX,
            )
        },
    }
}

/// A device that cannot be debugged plays the built-in source, whatever else is set.
pub proof fn lemma_only_debuggable_devices_choose(debuggable: Option<Seq<char>>, path: Option<Seq<char>>)
    requires
        debuggable != Some("1"@),
    ensures
        default_audio_path(debuggable, path) == DEFAULT_SPOOFED_AUDIO_PATH@,
{
}

/// What is played by default is the built-in source, unless the device can be debugged and names
/// a path that lies, without the white space around it, where tests keep their files; then it is
/// that path.
pub proof fn lemma_default_source_is_chosen(debuggable: Option<Seq<char>>, path: Option<Seq<char>>)
    ensures
        ({
            let played = default_audio_path(debuggable, path);
            let named = debuggable == Some("1"@) && (path matches Some(p) && "/data/local/tmp/"@
                .is_prefix_of(trimmed(p)));
            &&& named ==> (path matches Some(p) && played == trimmed(p))
            &&& !named ==> played == "/system/etc/spoofed_mic_audio_default.wav"@
        }),
        default_audio_path(debuggable, path) == "/system/etc/spoofed_mic_audio_default.wav"@
            || "/data/local/tmp/"@.is_prefix_of(default_audio_path(debuggable, path)),
{
}

/// A name counts as ignored just where the device can be debugged and names something that lies
/// elsewhere; the built-in source is then played.
pub proof fn lemma_ignored_names(debuggable: Option<Seq<char>>, path: Option<Seq<char>>)
    ensures
        is_name_ignored(debuggable, path) ==> default_audio_path(debuggable, path)
            == "/system/etc/spoofed_mic_audio_default.wav"@,
        is_name_ignored(debuggable, path) <==> debuggable == Some("1"@) && (path matches Some(p)
            && trimmed(p).len() != 0 && !"/data/local/tmp/"@.is_prefix_of(trimmed(p))),
{
}

proof fn lemma_trimmed_start(s: Seq<char>) -> (n: int)
    ensures
        0 <= n <= s.len(),
        trimmed_start(s) == s.skip(n),
        forall|i: int| 0 <= i < n ==> is_white_space(#[trigger] s[i]),
        n < s.len() ==> !is_white_space(s[n]),
    decreases s.len(),
{
    if s.len() > 0 && is_white_space(s[0]) {
        let rest = s.drop_first();
        let m = lemma_trimmed_start(rest);
        assert(rest.skip(m) =~= s.skip(m + 1));
        assert forall|i: int| 0 <= i < m + 1 implies is_white_space(#[trigger] s[i]) by {
            if i > 0 {
                assert(rest[i - 1] == s[i]);
            }
        }
        m + 1
    } else {
        assert(s.skip(0) =~= s);
        0
    }
}

proof fn lemma_trimmed_end(s: Seq<char>) -> (n: int)
    ensures
        0 <= n <= s.len(),
        trimmed_end(s) == s.take(n),
        forall|i: int| n <= i < s.len() ==> is_white_space(#[trigger] s[i]),
        n > 0 ==> !is_white_space(s[n - 1]),
    decreases s.len(),
{
    if s.len() > 0 && is_white_space(s.last()) {
        let rest = s.drop_last();
        let m = lemma_trimmed_end(rest);
        assert(rest.take(m) =~= s.take(m));
        assert forall|i: int| m <= i < s.len() implies is_white_space(#[trigger] s[i]) by {
            if i < rest.len() {
                assert(rest[i] == s[i]);
            }
        }
        m
    } else {
        assert(s.take(s.len() as int) =~= s);
        s.len() as int
    }
}

/// Taking the white space around a text away leaves the part between its first and its last
/// other character, and takes nothing but white space.
pub proof fn lemma_trimmed(s: Seq<char>)
    ensures
        exists|from: int, to: int|
            0 <= from <= to <= s.len() && trimmed(s) == #[trigger] s.subrange(from, to) && (forall|
                i: int,
            |
                0 <= i < from || to <= i < s.len() ==> is_white_space(#[trigger] s[i])),
        trimmed(s).len() > 0 ==> !is_white_space(trimmed(s)[0]) && !is_white_space(
            trimmed(s).last(),
        ),
{
    let from = lemma_trimmed_start(s);
    let rest = s.skip(from);
    let n = lemma_trimmed_end(rest);
    assert(trimmed(s) =~= s.subrange(from, from + n));
    assert forall|i: int| 0 <= i < from || from + n <= i < s.len() implies is_white_space(
        #[trigger] s[i],
    ) by {
        if i >= from {
            assert(rest[i - from] == s[i]);
        }
    }
    if n > 0 {
        assert(rest[0] == s[from]);
        assert(trimmed(s).last() == rest[n - 1]);
    }
}

} // verus!
