//! Scene files: what the player shows, read out of the flat text that scene
//! authors write.
//!
//! A value is found by the key in front of it, wherever the key first occurs.

use vstd::prelude::*;
use vstd::utf8::{decode_utf8, encode_utf8, valid_utf8};

use crate::binary32::{truncated, whole};
use crate::decimal::{decimal_bits, is_decimal, read_decimal};
use crate::text::utf8_text;

verus! {

/// One.
pub const ONE: u32 = 0x3f80_0000;

/// The size of a profile that names none: three hundredths.
pub const PROFILE_SIZE: u32 = 0x3cf5_c28f;

/// The glow of a profile that names none: a half.
pub const PROFILE_GLOW: u32 = 0x3f00_0000;

/// The speed of the player in a scene that names none: 240.
pub const PLAYER_SPEED: u32 = 0x4370_0000;

/// The width that the camera shows in a scene that names none: 620.
pub const CAMERA_SCALE: u32 = 0x441b_0000;

/// The size of the arena in a scene that names none: 460.
pub const ARENA: u32 = 0x43e6_0000;

/// The number of sparks in a burst in a scene that names none: ten.
pub const BURST_COUNT: u32 = 0x4120_0000;

/// The speed of sparks in a scene that names none: 150.
pub const BURST_SPEED: u32 = 0x4316_0000;

/// The life of sparks, in seconds, in a scene that names none: six tenths.
pub const BURST_LIFE: u32 = 0x3f19_999a;

/// The size of sparks in a scene that names none: fourteen thousandths.
pub const BURST_SIZE: u32 = 0x3c65_6042;

/// How the entities under a tag are drawn. Numbers are bit patterns.
#[derive(Clone, Copy, Debug)]
pub struct RenderProfile {
    pub color: [u32; 3],
    pub size: u32,
    pub glow: u32,
    pub pulse: bool,
}

/// The profile of a tag.
pub struct TaggedProfile {
    pub tag: String,
    pub profile: RenderProfile,
}

/// A scene. Numbers are bit patterns, but for the count.
pub struct Scene {
    pub title: String,
    pub player_speed: u32,
    pub camera_scale: u32,
    pub arena: u32,
    /// At most one for each tag.
    pub profiles: Vec<TaggedProfile>,
    pub burst_count: usize,
    pub burst_speed: u32,
    pub burst_life: u32,
    pub burst_color: [u32; 3],
    pub burst_size: u32,
}

/// A scene as contracts speak of it.
#[verifier::ext_equal]
pub struct SceneView {
    pub title: Seq<char>,
    pub player_speed: u32,
    pub camera_scale: u32,
    pub arena: u32,
    pub profiles: Seq<(Seq<char>, RenderProfile)>,
    pub burst_count: usize,
    pub burst_speed: u32,
    pub burst_life: u32,
    pub burst_color: [u32; 3],
    pub burst_size: u32,
}

/// The tags and profiles of a list.
pub open spec fn profile_views(list: Seq<TaggedProfile>) -> Seq<(Seq<char>, RenderProfile)> {
    list.map_values(|p: TaggedProfile| (p.tag@, p.profile))
}

impl View for Scene {
    type V = SceneView;

    open spec fn view(&self) -> SceneView {
        SceneView {
            title: self.title@,
            player_speed: self.player_speed,
            camera_scale: self.camera_scale,
            arena: self.arena,
            profiles: profile_views(self.profiles@),
            burst_count: self.burst_count,
            burst_speed: self.burst_speed,
            burst_life: self.burst_life,
            burst_color: self.burst_color,
            burst_size: self.burst_size,
        }
    }
}

/// The first place from `at` on where `key` occurs.
pub open spec fn found_from(src: Seq<u8>, key: Seq<u8>, at: nat) -> Option<nat>
    decreases src.len() + 1 - at,
{
    if at + key.len() > src.len() {
        None
    } else if src.subrange(at as int, (at + key.len()) as int) == key {
        Some(at)
    } else {
        found_from(src, key, at + 1)
    }
}

/// The first place where `key` occurs.
pub open spec fn found(src: Seq<u8>, key: Seq<u8>) -> Option<nat> {
    found_from(src, key, 0)
}

/// The number of bytes in front of the first closing brace or comma.
pub open spec fn reach_of_value(s: Seq<u8>) -> nat
    decreases s.len(),
{
    if s.len() == 0 || s[0] == 125 || s[0] == 44 {
        0
    } else {
        1 + reach_of_value(s.drop_first())
    }
}

/// What stands behind the first `key`, up to the next closing brace or comma.
pub open spec fn value_after(src: Seq<u8>, key: Seq<u8>) -> Seq<u8> {
    match found(src, key) {
        None => Seq::empty(),
        Some(i) => {
            let behind = src.skip((i + key.len()) as int);
            behind.take(reach_of_value(behind) as int)
        },
    }
}

/// Whether a byte can stand in a number.
pub open spec fn in_number(b: u8) -> bool {
    48 <= b <= 57 || b == 46 || b == 45
}

/// The number of leading bytes that can stand in a number.
pub open spec fn run_length(s: Seq<u8>) -> nat
    decreases s.len(),
{
    if s.len() == 0 || !in_number(s[0]) {
        0
    } else {
        1 + run_length(s.drop_first())
    }
}

/// The numbers in a text, in order: each longest run of bytes that can stand in
/// one, as far as it is one.
pub open spec fn numbers(s: Seq<u8>) -> Seq<u32>
    decreases s.len(),
{
    let n = run_length(s) as int;
    if s.len() == 0 {
        Seq::empty()
    } else if n == 0 {
        numbers(s.drop_first())
    } else if n > s.len() {
        Seq::empty()
    } else if is_decimal(s.take(n)) {
        seq![decimal_bits(s.take(n))] + numbers(s.skip(n))
    } else {
        numbers(s.skip(n))
    }
}

/// The numbers behind the first `key`.
pub open spec fn numbers_after(src: Seq<u8>, key: Seq<char>) -> Seq<u32> {
    numbers(value_after(src, encode_utf8(key)))
}

/// The number at a place, or another if there is none.
pub open spec fn pick(values: Seq<u32>, i: int, other: u32) -> u32 {
    if i < values.len() {
        values[i]
    } else {
        other
    }
}

/// The first number behind the first `key`, or another if there is none.
pub open spec fn number_after(src: Seq<u8>, key: Seq<char>, other: u32) -> u32 {
    pick(numbers_after(src, key), 0, other)
}

/// The color behind the first key for one; what is missing is one.
pub open spec fn color_in(src: Seq<u8>) -> [u32; 3] {
    let c = numbers_after(src, ":color ["@);
    [pick(c, 0, ONE), pick(c, 1, ONE), pick(c, 2, ONE)]
}

/// A tag as a key: a colon in front of it and one more byte behind.
pub open spec fn tag_key(tag: Seq<char>, end: u8) -> Seq<u8> {
    seq![58u8] + encode_utf8(tag) + seq![end]
}

/// Where the first key of a tag stands: one at the end of a line before any
/// other.
pub open spec fn tag_place(src: Seq<u8>, tag: Seq<char>) -> Option<nat> {
    match found(src, tag_key(tag, 10)) {
        Some(i) => Some(i),
        None => found(src, tag_key(tag, 32)),
    }
}

/// The first block in braces behind the key of a tag, with its braces.
pub open spec fn block_of(src: Seq<u8>, tag: Seq<char>) -> Option<Seq<u8>> {
    match tag_place(src, tag) {
        None => None,
        Some(i) => match found_from(src, seq![123u8], i) {
            None => None,
            Some(open) => match found_from(src, seq![125u8], open) {
                None => None,
                Some(close) => Some(src.subrange(open as int, close as int + 1)),
            },
        },
    }
}

/// The profile of a tag.
pub open spec fn profile_of(src: Seq<u8>, tag: Seq<char>) -> Option<RenderProfile> {
    match block_of(src, tag) {
        None => None,
        Some(block) => Some(
            RenderProfile {
                color: color_in(block),
                size: number_after(block, ":size "@, PROFILE_SIZE),
                glow: number_after(block, ":glow "@, PROFILE_GLOW),
                pulse: found(block, encode_utf8(":pulse true"@)) is Some,
            },
        ),
    }
}

/// The profiles of some tags, for those that have one.
pub open spec fn profiles_of(src: Seq<u8>, tags: Seq<Seq<char>>) -> Seq<
    (Seq<char>, RenderProfile),
>
    decreases tags.len(),
{
    if tags.len() == 0 {
        Seq::empty()
    } else {
        let rest = profiles_of(src, tags.drop_last());
        match profile_of(src, tags.last()) {
            Some(p) => rest.push((tags.last(), p)),
            None => rest,
        }
    }
}

/// The tags that a scene can have profiles for.
pub open spec fn known_tags() -> Seq<Seq<char>> {
    seq!["shiro-pico"@, "ghost"@, "beat-spark"@]
}

/// Where the title starts: fourteen bytes behind the start of its key.
pub open spec fn title_start(src: Seq<u8>) -> Option<nat> {
    match found(src, encode_utf8(":game/title \""@)) {
        Some(i) => Some(i + 14),
        None => None,
    }
}

/// The bytes of a title that starts at a place: up to the next quotation mark.
pub open spec fn title_bytes(src: Seq<u8>, start: nat) -> Seq<u8> {
    match found_from(src, seq![34u8], start) {
        Some(end) => src.subrange(start as int, end as int),
        None => src.skip(start as int),
    }
}

/// Whether the title, if there is one, starts inside the text and is text itself.
pub open spec fn has_readable_title(src: Seq<u8>) -> bool {
    title_start(src) matches Some(start) ==> start <= src.len() && valid_utf8(
        title_bytes(src, start),
    )
}

/// The title.
pub open spec fn title_of(src: Seq<u8>) -> Seq<char> {
    match title_start(src) {
        Some(start) => decode_utf8(title_bytes(src, start)),
        None => "kami-clj-play"@,
    }
}

/// The part of a scene from the key of its bursts on.
pub open spec fn burst_part(src: Seq<u8>) -> Seq<u8> {
    match found(src, encode_utf8(":fx/burst"@)) {
        Some(i) => src.skip(i as int),
        None => Seq::empty(),
    }
}

/// The scene that a text describes.
pub open spec fn scene_of(src: Seq<u8>) -> SceneView {
    let burst = burst_part(src);
    SceneView {
        title: title_of(src),
        player_speed: number_after(src, ":player-speed "@, PLAYER_SPEED),
        camera_scale: number_after(src, ":camera-scale "@, CAMERA_SCALE),
        arena: number_after(src, ":arena "@, ARENA),
        profiles: profiles_of(src, known_tags()),
        burst_count: whole(number_after(burst, ":count "@, BURST_COUNT)),
        burst_speed: number_after(burst, ":speed "@, BURST_SPEED),
        burst_life: number_after(burst, ":life "@, BURST_LIFE),
        burst_color: color_in(burst),
        burst_size: number_after(burst, ":size "@, BURST_SIZE),
    }
}

/// Whether `key` occurs at a place.
fn occurs_at(src: &[u8], key: &[u8], at: usize) -> (r: bool)
    requires
        at + key@.len() <= src@.len(),
    ensures
        r == (src@.subrange(at as int, at + key@.len()) == key@),
{
    let n: usize = src.len();
    let mut i: usize = 0;
    while i < key.len()
        invariant
            i <= key.len(),
            n == src@.len(),
            at + key@.len() <= n,
            forall|k: int| 0 <= k < i ==> src@[at + k] == #[trigger] key@[k],
        decreases key.len() - i,
    {
        if src[at + i] != key[i] {
            assert(src@.subrange(at as int, at + key@.len())[i as int] != key@[i as int]);
            return false;
        }
        i = i + 1;
    }
    assert(src@.subrange(at as int, at + key@.len()) =~= key@);
    true
}

/// The first place from `from` on where `key` occurs.
fn find_from(src: &[u8], key: &[u8], from: usize) -> (r: Option<usize>)
    ensures
        match r {
            Some(i) => found_from(src@, key@, from as nat) == Some(i as nat) && from <= i && i
                + key@.len() <= src@.len(),
            None => found_from(src@, key@, from as nat) is None,
        },
{
    if key.len() > src.len() {
        return None;
    }
    let last: usize = src.len() - key.len();
    let mut at: usize = from;
    while at <= last
        invariant
            from <= at,
            last + key@.len() == src@.len(),
            found_from(src@, key@, from as nat) == found_from(src@, key@, at as nat),
        decreases last + 1 - at,
    {
        if occurs_at(src, key, at) {
            return Some(at);
        }
        if at == last {
            assert(found_from(src@, key@, (at + 1) as nat) is None);
            return None;
        }
        at = at + 1;
    }
    None
}

/// The part of `s` in front of its first closing brace or comma.
fn value_part(s: &[u8]) -> (r: &[u8])
    ensures
        r@ == s@.take(reach_of_value(s@) as int),
        reach_of_value(s@) <= s@.len(),
{
    let mut i: usize = 0;
    assert(s@.skip(0) =~= s@);
    while i < s.len() && s[i] != 125 && s[i] != 44
        invariant
            i <= s.len(),
            reach_of_value(s@) == i + reach_of_value(s@.skip(i as int)),
        decreases s.len() - i,
    {
        assert(s@.skip(i as int).drop_first() =~= s@.skip(i + 1));
        i = i + 1;
    }
    assert(reach_of_value(s@.skip(i as int)) == 0);
    vstd::slice::slice_subrange(s, 0, i)
}

/// The end of the run of bytes from `from` on that can stand in a number.
fn run_end(s: &[u8], from: usize) -> (r: usize)
    requires
        from <= s@.len(),
    ensures
        from <= r <= s@.len(),
        r == from + run_length(s@.skip(from as int)),
{
    let mut i: usize = from;
    while i < s.len() && ((48 <= s[i] && s[i] <= 57) || s[i] == 46 || s[i] == 45)
        invariant
            from <= i <= s.len(),
            from + run_length(s@.skip(from as int)) == i + run_length(s@.skip(i as int)),
        decreases s.len() - i,
    {
        assert(s@.skip(i as int).drop_first() =~= s@.skip(i + 1));
        i = i + 1;
    }
    assert(run_length(s@.skip(i as int)) == 0);
    i
}

/// The numbers in a text, in order.
fn read_numbers(s: &[u8]) -> (r: Vec<u32>)
    ensures
        r@ == numbers(s@),
{
    let mut out: Vec<u32> = Vec::new();
    let mut at: usize = 0;
    assert(s@.skip(0) =~= s@);
    assert(out@ + numbers(s@) =~= numbers(s@));
    while at < s.len()
        invariant
            at <= s.len(),
            out@ + numbers(s@.skip(at as int)) == numbers(s@),
        decreases s.len() - at,
    {
        let end: usize = run_end(s, at);
        let ghost rest = s@.skip(at as int);
        if end == at {
            assert(rest.drop_first() =~= s@.skip(at + 1));
            at = at + 1;
        } else {
            let run: &[u8] = vstd::slice::slice_subrange(s, at, end);
            proof {
                assert(run@ =~= rest.take(end - at));
                assert(rest.skip(end - at) =~= s@.skip(end as int));
            }
            match read_decimal(run) {
                Some(bits) => {
                    assert(out@ + (seq![bits] + numbers(s@.skip(end as int))) =~= out@.push(bits)
                        + numbers(s@.skip(end as int)));
                    out.push(bits);
                },
                None => {},
            }
            at = end;
        }
    }
    assert(s@.skip(at as int) =~= Seq::empty());
    assert(out@ + numbers(s@.skip(at as int)) =~= out@);
    out
}

/// The numbers behind the first `key`, up to the next closing brace or comma, as
/// bit patterns.
pub fn floats_after(src: &[u8], key: &str) -> (r: Vec<u32>)
    ensures
        r@ == numbers_after(src@, key@),
{
    let n: usize = src.len();
    let key_bytes: &[u8] = key.as_bytes();
    match find_from(src, key_bytes, 0) {
        None => {
            assert(numbers(Seq::<u8>::empty()) =~= Seq::empty());
            Vec::new()
        },
        Some(i) => {
            let behind: &[u8] = vstd::slice::slice_subrange(src, i + key_bytes.len(), n);
            assert(behind@ =~= src@.skip(i + key_bytes@.len()));
            read_numbers(value_part(behind))
        },
    }
}

fn pick_from(values: &Vec<u32>, i: usize, other: u32) -> (r: u32)
    ensures
        r == pick(values@, i as int, other),
{
    if i < values.len() {
        values[i]
    } else {
        other
    }
}

fn float_after(src: &[u8], key: &str, other: u32) -> (r: u32)
    ensures
        r == number_after(src@, key@, other),
{
    pick_from(&floats_after(src, key), 0, other)
}

fn read_color(src: &[u8]) -> (r: [u32; 3])
    ensures
        r == color_in(src@),
{
    let c: Vec<u32> = floats_after(src, ":color [");
    [pick_from(&c, 0, ONE), pick_from(&c, 1, ONE), pick_from(&c, 2, ONE)]
}

fn make_key(tag: &str, end: u8) -> (r: Vec<u8>)
    ensures
        r@ == tag_key(tag@, end),
{
    let mut key: Vec<u8> = vec![58];
    key.extend_from_slice(tag.as_bytes());
    key.push(end);
    assert(key@ =~= tag_key(tag@, end));
    key
}

/// The profile that a scene gives a tag: from the first block in braces behind the
/// tag.
pub fn profile_block(src: &[u8], tag: &str) -> (r: Option<RenderProfile>)
    ensures
        r == profile_of(src@, tag@),
{
    let n: usize = src.len();
    let at_line_end: Vec<u8> = make_key(tag, 10);
    let in_line: Vec<u8> = make_key(tag, 32);
    let start: usize = match find_from(src, at_line_end.as_slice(), 0) {
        Some(i) => i,
        None => match find_from(src, in_line.as_slice(), 0) {
            Some(i) => i,
            None => {
                return None;
            },
        },
    };
    let brace: Vec<u8> = vec![123];
    assert(brace@ =~= seq![123u8]);
    let open: usize = match find_from(src, brace.as_slice(), start) {
        Some(i) => i,
        None => {
            return None;
        },
    };
    let brace: Vec<u8> = vec![125];
    assert(brace@ =~= seq![125u8]);
    let close: usize = match find_from(src, brace.as_slice(), open) {
        Some(i) => i,
        None => {
            return None;
        },
    };
    assert(close < n);
    let block: &[u8] = vstd::slice::slice_subrange(src, open, close + 1);
    let pulse: bool = match find_from(block, ":pulse true".as_bytes(), 0) {
        Some(_) => true,
        None => false,
    };
    Some(
        RenderProfile {
            color: read_color(block),
            size: float_after(block, ":size ", PROFILE_SIZE),
            glow: float_after(block, ":glow ", PROFILE_GLOW),
            pulse,
        },
    )
}

fn read_title(src: &[u8]) -> (r: String)
    requires
        has_readable_title(src@),
    ensures
        r@ == title_of(src@),
{
    let n: usize = src.len();
    match find_from(src, ":game/title \"".as_bytes(), 0) {
        None => "kami-clj-play".to_owned(),
        Some(i) => {
            assert(i + 14 <= n);
            let start: usize = i + 14;
            let quote: Vec<u8> = vec![34];
            assert(quote@ =~= seq![34u8]);
            let end: usize = match find_from(src, quote.as_slice(), start) {
                Some(end) => end,
                None => n,
            };
            let bytes: &[u8] = vstd::slice::slice_subrange(src, start, end);
            assert(bytes@ =~= title_bytes(src@, start as nat));
            match utf8_text(bytes) {
                Some(t) => t.to_owned(),
                None => String::new(),
            }
        },
    }
}

/// Whether the title of a scene, if it has one, can be read.
pub fn is_readable(src: &str) -> (r: bool)
    ensures
        r == has_readable_title(encode_utf8(src@)),
{
    let bytes: &[u8] = src.as_bytes();
    match find_from(bytes, ":game/title \"".as_bytes(), 0) {
        None => true,
        Some(i) => {
            if bytes.len() - i < 14 {
                return false;
            }
            let start: usize = i + 14;
            let quote: Vec<u8> = vec![34];
            assert(quote@ =~= seq![34u8]);
            let end: usize = match find_from(bytes, quote.as_slice(), start) {
                Some(end) => end,
                None => bytes.len(),
            };
            let title: &[u8] = vstd::slice::slice_subrange(bytes, start, end);
            assert(title@ =~= title_bytes(bytes@, start as nat));
            utf8_text(title).is_some()
        },
    }
}

fn read_profiles(src: &[u8]) -> (r: Vec<TaggedProfile>)
    ensures
        profile_views(r@) == profiles_of(src@, known_tags()),
{
    let tags: [&str; 3] = ["shiro-pico", "ghost", "beat-spark"];
    let mut out: Vec<TaggedProfile> = Vec::new();
    let mut i: usize = 0;
    let ghost all = known_tags();
    assert(all.take(0) =~= Seq::empty());
    assert(profile_views(out@) =~= Seq::empty());
    while i < 3
        invariant
            i <= 3,
            all == known_tags(),
            tags@.len() == 3,
            forall|k: int| 0 <= k < 3 ==> (#[trigger] tags@[k])@ == all[k],
            profile_views(out@) == profiles_of(src@, all.take(i as int)),
        decreases 3 - i,
    {
        let tag: &str = tags[i];
        proof {
            assert(all.take(i + 1).drop_last() =~= all.take(i as int));
            assert(tags@[i as int]@ == all[i as int]);
        }
        match profile_block(src, tag) {
            Some(profile) => {
                let entry = TaggedProfile { tag: tag.to_owned(), profile };
                assert(profile_views(out@.push(entry)) =~= profile_views(out@).push(
                    (entry.tag@, profile),
                ));
                out.push(entry);
            },
            None => {},
        }
        i = i + 1;
    }
    assert(all.take(3) =~= all);
    out
}

/// Reads a scene.
pub fn parse_scene(src: &str) -> (r: Scene)
    requires
        has_readable_title(encode_utf8(src@)),
    ensures
        r@ == scene_of(encode_utf8(src@)),
{
    let bytes: &[u8] = src.as_bytes();
    let start: usize = match find_from(bytes, ":fx/burst".as_bytes(), 0) {
        Some(i) => i,
        None => bytes.len(),
    };
    let burst: &[u8] = vstd::slice::slice_subrange(bytes, start, bytes.len());
    assert(burst@ =~= burst_part(bytes@));
    Scene {
        title: read_title(bytes),
        player_speed: float_after(bytes, ":player-speed ", PLAYER_SPEED),
        camera_scale: float_after(bytes, ":camera-scale ", CAMERA_SCALE),
        arena: float_after(bytes, ":arena ", ARENA),
        profiles: read_profiles(bytes),
        burst_count: truncated(float_after(burst, ":count ", BURST_COUNT)),
        burst_speed: float_after(burst, ":speed ", BURST_SPEED),
        burst_life: float_after(burst, ":life ", BURST_LIFE),
        burst_color: read_color(burst),
        burst_size: float_after(burst, ":size ", BURST_SIZE),
    }
}

/// What is found is there, and nowhere before; and what is not found is nowhere.
pub proof fn law_found_is_first(src: Seq<u8>, key: Seq<u8>, at: nat)
    ensures
        match found_from(src, key, at) {
            Some(i) => {
                &&& at <= i
                &&& i + key.len() <= src.len()
                &&& src.subrange(i as int, (i + key.len()) as int) == key
                &&& forall|j: int|
                    at <= j < i ==> #[trigger] src.subrange(j, j + key.len()) != key
            },
            None => forall|j: int|
                at <= j && j + key.len() <= src.len() ==> #[trigger] src.subrange(
                    j,
                    j + key.len(),
                ) != key,
        },
    decreases src.len() + 1 - at,
{
    if at + key.len() <= src.len() && src.subrange(at as int, (at + key.len()) as int) != key {
        law_found_is_first(src, key, at + 1);
    }
}

/// A scene has at most one profile for a tag, and only for tags it can have one
/// for.
pub proof fn law_profiles_are_distinct(src: Seq<u8>, i: int, j: int)
    requires
        0 <= i < j < profiles_of(src, known_tags()).len(),
    ensures
        profiles_of(src, known_tags())[i].0 != profiles_of(src, known_tags())[j].0,
        known_tags().contains(profiles_of(src, known_tags())[i].0),
        known_tags().contains(profiles_of(src, known_tags())[j].0),
{
    reveal_strlit("shiro-pico");
    reveal_strlit("ghost");
    reveal_strlit("beat-spark");
    let tags = known_tags();
    assert("shiro-pico"@[0] != "ghost"@[0]);
    assert("shiro-pico"@[0] != "beat-spark"@[0]);
    assert("ghost"@[0] != "beat-spark"@[0]);
    assert(tags[0] == "shiro-pico"@ && tags[1] == "ghost"@ && tags[2] == "beat-spark"@);
    let two = tags.drop_last();
    let one = two.drop_last();
    assert(one.drop_last() =~= Seq::empty());
    assert(two.last() == "ghost"@ && one.last() == "shiro-pico"@);
    reveal_with_fuel(profiles_of, 4);
}

} // verus!
