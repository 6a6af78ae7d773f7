//! What is read out of a scene file, given how it was written.

use vstd::prelude::*;
use vstd::utf8::{encode_scalar, encode_utf8, encode_utf8_decode_utf8};

use crate::binary32::{nearest, one_units, whole};
use crate::decimal::{
    decimal_bits, digits, is_decimal, is_digit, is_point, parts, points, unsigned,
};
use crate::player::look_of;
use crate::scene::{
    block_of, color_in, found, found_from, known_tags, law_found_is_first,
    number_after, numbers, numbers_after, pick, profile_of, profiles_of, reach_of_value,
    run_length, scene_of, tag_key, tag_place, value_after, RenderProfile,
};

verus! {

/// Whether bytes hold a key somewhere.
pub open spec fn holds(src: Seq<u8>, key: Seq<u8>) -> bool {
    exists|i: int|
        0 <= i && i + key.len() <= src.len() && #[trigger] src.subrange(i, i + key.len()) == key
}

/// Whether bytes hold a key at a place and nowhere before.
pub open spec fn first_at(src: Seq<u8>, key: Seq<u8>, at: int) -> bool {
    &&& 0 <= at && at + key.len() <= src.len()
    &&& src.subrange(at, at + key.len()) == key
    &&& forall|j: int| 0 <= j < at ==> #[trigger] src.subrange(j, j + key.len()) != key
}

/// Finding finds the first place, if there is one.
proof fn lemma_found(src: Seq<u8>, key: Seq<u8>, at: int)
    ensures
        found(src, key) is Some <==> holds(src, key),
        first_at(src, key, at) ==> found(src, key) == Some(at as nat),
{
    law_found_is_first(src, key, 0);
    match found(src, key) {
        Some(i) => {
            assert(src.subrange(i as int, i as int + key.len()) == key);
        },
        None => {},
    }
}

proof fn lemma_ascii_char(c: char)
    requires
        (c as u32) < 0x80,
    ensures
        encode_scalar(c as u32) == seq![c as u8],
{
    let x = c as u32;
    assert(x & 0x7f == x) by (bit_vector)
        requires
            x < 0x80,
    ;
    assert(encode_scalar(x) =~= seq![c as u8]);
}

/// The bytes of a text of ASCII characters are its characters.
pub proof fn lemma_ascii(t: Seq<char>)
    requires
        forall|i: int| 0 <= i < t.len() ==> (#[trigger] t[i] as u32) < 0x80,
    ensures
        encode_utf8(t) == Seq::new(t.len(), |i: int| t[i] as u8),
    decreases t.len(),
{
    let bytes = Seq::new(t.len(), |i: int| t[i] as u8);
    if t.len() == 0 {
        assert(bytes =~= seq![]);
    } else {
        let rest = t.drop_first();
        assert forall|i: int| 0 <= i < rest.len() implies (#[trigger] rest[i] as u32) < 0x80 by {
            assert((t[i + 1] as u32) < 0x80);
        }
        lemma_ascii(rest);
        lemma_ascii_char(t[0]);
        assert(bytes =~= seq![t[0] as u8] + Seq::new(rest.len(), |i: int| rest[i] as u8));
    }
}

/// Bytes before a brace or a comma.
proof fn lemma_reach(text: Seq<u8>, behind: Seq<u8>)
    requires
        forall|i: int| 0 <= i < text.len() ==> #[trigger] text[i] != 125 && text[i] != 44,
        behind.len() > 0 ==> behind[0] == 125 || behind[0] == 44,
    ensures
        reach_of_value(text + behind) == text.len(),
    decreases text.len(),
{
    if text.len() == 0 {
        assert(text + behind =~= behind);
    } else {
        let rest = text.drop_first();
        assert((text + behind)[0] == text[0]);
        assert((text + behind).drop_first() =~= rest + behind);
        assert forall|i: int| 0 <= i < rest.len() implies #[trigger] rest[i] != 125 && rest[i]
            != 44 by {
            assert(text[i + 1] != 125);
        }
        lemma_reach(rest, behind);
    }
}

/// The value of a key is what is written between its first place and the next closing
/// brace or comma, or the end.
pub proof fn law_value_stands_behind_its_key(
    front: Seq<u8>,
    key: Seq<u8>,
    text: Seq<u8>,
    behind: Seq<u8>,
)
    requires
        first_at(front + key + text + behind, key, front.len() as int),
        forall|i: int| 0 <= i < text.len() ==> #[trigger] text[i] != 125 && text[i] != 44,
        behind.len() > 0 ==> behind[0] == 125 || behind[0] == 44,
    ensures
        value_after(front + key + text + behind, key) == text,
{
    let src = front + key + text + behind;
    lemma_found(src, key, front.len() as int);
    assert(src.skip((front.len() + key.len()) as int) =~= text + behind);
    lemma_reach(text, behind);
    assert((text + behind).take(text.len() as int) =~= text);
}

/// A key that is nowhere has no value, and so no numbers.
pub proof fn law_missing_key_has_no_value(src: Seq<u8>, key: Seq<char>, other: u32)
    requires
        !holds(src, encode_utf8(key)),
    ensures
        numbers_after(src, key) == Seq::<u32>::empty(),
        number_after(src, key, other) == other,
{
    lemma_found(src, encode_utf8(key), 0);
}

/// Whether a byte is a digit, a point or a minus.
pub open spec fn is_figure(b: u8) -> bool {
    (48 <= b && b <= 57) || b == 46 || b == 45
}

proof fn lemma_run(run: Seq<u8>, behind: Seq<u8>)
    requires
        forall|i: int| 0 <= i < run.len() ==> is_figure(#[trigger] run[i]),
        behind.len() > 0 ==> !is_figure(behind[0]),
    ensures
        run_length(run + behind) == run.len(),
    decreases run.len(),
{
    if run.len() == 0 {
        assert(run + behind =~= behind);
    } else {
        let rest = run.drop_first();
        assert((run + behind)[0] == run[0]);
        assert(is_figure(run[0]));
        assert((run + behind).drop_first() =~= rest + behind);
        assert forall|i: int| 0 <= i < rest.len() implies is_figure(#[trigger] rest[i]) by {
            assert(is_figure(run[i + 1]));
        }
        lemma_run(rest, behind);
    }
}

/// The numbers of a text are read one after the other: what cannot stand in a number is
/// passed over, and each run of digits, points and minuses is one number if it is one.
pub proof fn law_numbers_are_read_one_by_one(blank: Seq<u8>, run: Seq<u8>, behind: Seq<u8>)
    requires
        forall|i: int| 0 <= i < blank.len() ==> !is_figure(#[trigger] blank[i]),
        forall|i: int| 0 <= i < run.len() ==> is_figure(#[trigger] run[i]),
        run.len() > 0,
        behind.len() > 0 ==> !is_figure(behind[0]),
    ensures
        numbers(blank + run + behind) == (if is_decimal(run) {
            seq![decimal_bits(run)]
        } else {
            Seq::<u32>::empty()
        }) + numbers(behind),
        numbers(blank) == Seq::<u32>::empty(),
    decreases blank.len(),
{
    let s = blank + run + behind;
    if blank.len() == 0 {
        assert(s =~= run + behind);
        lemma_run(run, behind);
        assert((run + behind).take(run.len() as int) =~= run);
        assert((run + behind).skip(run.len() as int) =~= behind);
        assert(Seq::<u32>::empty() + numbers(behind) =~= numbers(behind));
    } else {
        let rest = blank.drop_first();
        assert(s[0] == blank[0]);
        assert(!is_figure(blank[0]));
        assert(s.drop_first() =~= rest + run + behind);
        assert forall|i: int| 0 <= i < rest.len() implies !is_figure(#[trigger] rest[i]) by {
            assert(!is_figure(blank[i + 1]));
        }
        law_numbers_are_read_one_by_one(rest, run, behind);
    }
}

/// A number that is written behind a key is read: it may follow blanks, and ends at
/// anything that cannot stand in a number.
pub proof fn law_number_is_read_behind_its_key(
    front: Seq<u8>,
    key: Seq<char>,
    blank: Seq<u8>,
    run: Seq<u8>,
    more: Seq<u8>,
    behind: Seq<u8>,
    other: u32,
)
    requires
        ({
            let text = blank + run + more;
            &&& first_at(
                front + encode_utf8(key) + text + behind,
                encode_utf8(key),
                front.len() as int,
            )
            &&& forall|i: int| 0 <= i < text.len() ==> #[trigger] text[i] != 125 && text[i] != 44
        }),
        forall|i: int| 0 <= i < blank.len() ==> !is_figure(#[trigger] blank[i]),
        forall|i: int| 0 <= i < run.len() ==> is_figure(#[trigger] run[i]),
        run.len() > 0,
        is_decimal(run),
        more.len() > 0 ==> !is_figure(more[0]),
        behind.len() > 0 ==> behind[0] == 125 || behind[0] == 44,
    ensures
        number_after(front + encode_utf8(key) + (blank + run + more) + behind, key, other)
            == decimal_bits(run),
{
    law_value_stands_behind_its_key(front, encode_utf8(key), blank + run + more, behind);
    law_numbers_are_read_one_by_one(blank, run, more);
}

/// Ten to a power.
pub open spec fn ten_to(n: nat) -> nat
    decreases n,
{
    if n == 0 {
        1
    } else {
        10 * ten_to((n - 1) as nat)
    }
}

/// A whole number as it is written.
pub open spec fn written(n: nat) -> Seq<u8>
    decreases n,
{
    if n < 10 {
        seq![(48 + n) as u8]
    } else {
        written(n / 10).push((48 + n % 10) as u8)
    }
}

/// Whether a text is made of digits alone.
pub open spec fn all_digits(s: Seq<u8>) -> bool {
    forall|i: int| 0 <= i < s.len() ==> 48 <= #[trigger] s[i] <= 57
}

/// A whole number that is written is read back.
pub proof fn law_whole_number_is_read_back(n: nat)
    ensures
        all_digits(written(n)),
        written(n).len() > 0,
        digits(written(n)) == n,
        parts(written(n)) == 1,
        points(written(n)) == 0,
        is_decimal(written(n)),
        decimal_bits(written(n)) == nearest(n * one_units(), 1),
    decreases n,
{
    let s = written(n);
    if n < 10 {
        assert(s.drop_last() =~= Seq::empty());
        assert(digits(s.drop_last()) == 0);
        assert(points(s.drop_last()) == 0);
    } else {
        law_whole_number_is_read_back(n / 10);
        assert(s.drop_last() =~= written(n / 10));
        assert(s.last() == (48 + n % 10) as u8);
    }
    assert(s[0] != 45);
    assert(unsigned(s) == s);
    lemma_no_points(s);
}

proof fn lemma_no_points(s: Seq<u8>)
    requires
        all_digits(s),
    ensures
        points(s) == 0,
        parts(s) == 1,
    decreases s.len(),
{
    if s.len() > 0 {
        let rest = s.drop_last();
        assert forall|i: int| 0 <= i < rest.len() implies 48 <= #[trigger] rest[i] <= 57 by {
            assert(48 <= s[i] <= 57);
        }
        lemma_no_points(rest);
        assert(48 <= s[s.len() - 1] <= 57);
    }
}

/// Digits behind a point are parts of tens: with `k` of them, the number is that of all
/// digits over ten to the power of `k`.
pub proof fn law_point_divides_by_tens(a: Seq<u8>, f: Seq<u8>)
    requires
        all_digits(a),
        all_digits(f),
        a.len() + f.len() > 0,
    ensures
        ({
            let s = a + seq![46u8] + f;
            &&& digits(s) == digits(a) * ten_to(f.len()) + digits(f)
            &&& parts(s) == ten_to(f.len())
            &&& is_decimal(s)
            &&& decimal_bits(s) == nearest(
                (digits(a) * ten_to(f.len()) + digits(f)) * one_units(),
                ten_to(f.len()),
            )
        }),
{
    let s = a + seq![46u8] + f;
    lemma_point(a, f);
    assert forall|i: int| 0 <= i < s.len() implies is_digit(#[trigger] s[i])
        || is_point(s[i]) by {
        if i < a.len() {
            assert(48 <= a[i] <= 57);
        } else if i > a.len() {
            assert(48 <= f[i - a.len() - 1] <= 57);
        }
    }
    assert(s[0] != 45) by {
        if a.len() > 0 {
            assert(48 <= a[0] <= 57);
        }
    }
    assert(unsigned(s) == s);
}

proof fn lemma_point(a: Seq<u8>, f: Seq<u8>)
    requires
        all_digits(a),
        all_digits(f),
    ensures
        ({
            let s = a + seq![46u8] + f;
            &&& digits(s) == digits(a) * ten_to(f.len()) + digits(f)
            &&& parts(s) == ten_to(f.len())
            &&& points(s) == 1
        }),
    decreases f.len(),
{
    let s = a + seq![46u8] + f;
    if f.len() == 0 {
        assert(s.drop_last() =~= a);
        lemma_no_points(a);
        assert(digits(a) * 1 == digits(a));
    } else {
        let rest = f.drop_last();
        assert forall|i: int| 0 <= i < rest.len() implies 48 <= #[trigger] rest[i] <= 57 by {
            assert(48 <= f[i] <= 57);
        }
        lemma_point(a, rest);
        assert(s.drop_last() =~= a + seq![46u8] + rest);
        assert(s.last() == f.last());
        assert(48 <= f[f.len() - 1] <= 57);
        let t = ten_to(rest.len());
        let x = digits(a);
        let y = digits(rest);
        let d = (f.last() - 48) as nat;
        assert((x * t + y) * 10 + d == x * (10 * t) + (y * 10 + d)) by (nonlinear_arith);
    }
}

/// The bytes of `:pulse true`.
pub open spec fn pulse_mark() -> Seq<u8> {
    seq![58u8, 112, 117, 108, 115, 101, 32, 116, 114, 117, 101]
}

/// A profile pulses exactly if its block says `:pulse true` somewhere; a block that says
/// anything else of a pulse, or nothing, gives one that does not.
pub proof fn law_profile_pulses_if_its_block_says_so(src: Seq<u8>, tag: Seq<char>)
    ensures
        match (block_of(src, tag), profile_of(src, tag)) {
            (Some(block), Some(p)) => p.pulse <==> holds(block, pulse_mark()),
            (None, None) => true,
            _ => false,
        },
{
    reveal_strlit(":pulse true");
    lemma_ascii(":pulse true"@);
    assert(encode_utf8(":pulse true"@) =~= pulse_mark());
    match block_of(src, tag) {
        Some(block) => lemma_found(block, pulse_mark(), 0),
        None => {},
    }
}

/// What a profile's block says is its own: the numbers behind `:size ` and `:glow `, and
/// up to three behind `:color [`, each with what stands in for one that is missing.
pub proof fn law_profile_is_what_its_block_says(src: Seq<u8>, tag: Seq<char>)
    ensures
        match (block_of(src, tag), profile_of(src, tag)) {
            (Some(block), Some(p)) => {
                let c = numbers_after(block, ":color ["@);
                &&& p.size == number_after(block, ":size "@, 0x3cf5_c28f)
                &&& p.glow == number_after(block, ":glow "@, 0x3f00_0000)
                &&& p.color[0] == pick(c, 0, 0x3f80_0000)
                &&& p.color[1] == pick(c, 1, 0x3f80_0000)
                &&& p.color[2] == pick(c, 2, 0x3f80_0000)
            },
            (None, None) => true,
            _ => false,
        },
{
}

/// A color is the first three numbers behind its key, and one for each that is missing.
pub proof fn law_color_is_three_numbers(src: Seq<u8>, i: int)
    requires
        0 <= i < 3,
    ensures
        ({
            let c = numbers_after(src, ":color ["@);
            color_in(src)[i] == if i < c.len() {
                c[i]
            } else {
                0x3f80_0000
            }
        }),
{
}

/// A byte is found where it first is.
proof fn lemma_byte_found(src: Seq<u8>, b: u8, from: nat, at: int)
    requires
        from <= at < src.len(),
        src[at] == b,
        forall|j: int| from <= j < at ==> #[trigger] src[j] != b,
    ensures
        found_from(src, seq![b], from) == Some(at as nat),
{
    let key = seq![b];
    law_found_is_first(src, key, from);
    assert(src.subrange(at, at + 1) =~= key);
    assert(src.subrange(at, at + key.len()) == key);
    match found_from(src, key, from) {
        Some(i) => {
            assert(src.subrange(i as int, (i + key.len()) as int)[0] == src[i as int]);
            assert(src[i as int] == b);
        },
        None => {},
    }
}

/// The block of a tag is what is written in braces behind its key: the first key at the
/// end of a line or, if there is none, the first in a line.
#[verifier::spinoff_prover]
pub proof fn law_block_is_written_behind_its_tag(
    front: Seq<u8>,
    tag: Seq<char>,
    end: u8,
    between: Seq<u8>,
    inner: Seq<u8>,
    behind: Seq<u8>,
)
    requires
        end == 10 || end == 32,
        ({
            let src = front + (seq![58u8] + encode_utf8(tag) + seq![end]) + between + seq![123u8]
                + inner + seq![125u8] + behind;
            &&& first_at(src, seq![58u8] + encode_utf8(tag) + seq![end], front.len() as int)
            &&& end == 32 ==> !holds(src, seq![58u8] + encode_utf8(tag) + seq![10u8])
        }),
        forall|i: int| 0 <= i < encode_utf8(tag).len() ==> #[trigger] encode_utf8(tag)[i] != 123,
        forall|i: int| 0 <= i < between.len() ==> #[trigger] between[i] != 123,
        forall|i: int| 0 <= i < inner.len() ==> #[trigger] inner[i] != 125,
    ensures
        block_of(
            front + (seq![58u8] + encode_utf8(tag) + seq![end]) + between + seq![123u8] + inner
                + seq![125u8] + behind,
            tag,
        ) == Some(seq![123u8] + inner + seq![125u8]),
{
    let t = encode_utf8(tag);
    let key = seq![58u8] + t + seq![end];
    let src = front + key + between + seq![123u8] + inner + seq![125u8] + behind;
    lemma_found(src, key, front.len() as int);
    lemma_found(src, tag_key(tag, 10), front.len() as int);
    assert(tag_place(src, tag) == Some(front.len()));
    let open = (front.len() + key.len() + between.len()) as int;
    assert(src[open] == 123);
    assert forall|j: int| front.len() <= j < open implies #[trigger] src[j] != 123 by {
        let k = j - front.len();
        if k < key.len() {
            assert(src[j] == key[k]);
            if 1 <= k <= t.len() {
                assert(key[k] == t[k - 1]);
            }
        } else {
            assert(src[j] == between[k - key.len()]);
        }
    }
    lemma_byte_found(src, 123, front.len(), open);
    let close = open + 1 + inner.len();
    assert(src[close] == 125);
    assert forall|j: int| open <= j < close implies #[trigger] src[j] != 125 by {
        if j > open {
            assert(src[j] == inner[j - open - 1]);
        }
    }
    lemma_byte_found(src, 125, open as nat, close);
    assert(src.subrange(open, close + 1) =~= seq![123u8] + inner + seq![125u8]);
}

/// A scene has the profile that its text gives a tag, for the three tags that it can
/// have one for, and none for any other.
#[verifier::spinoff_prover]
pub proof fn law_scene_has_the_profile_of_each_tag(src: Seq<u8>, tag: Seq<char>)
    ensures
        look_of(scene_of(src).profiles, tag) == if tag == "shiro-pico"@ || tag == "ghost"@ || tag
            == "beat-spark"@ {
            profile_of(src, tag)
        } else {
            None
        },
{
    reveal_strlit("shiro-pico");
    reveal_strlit("ghost");
    reveal_strlit("beat-spark");
    let tags = known_tags();
    assert("shiro-pico"@[0] != "ghost"@[0]);
    assert("shiro-pico"@[0] != "beat-spark"@[0]);
    assert("ghost"@[0] != "beat-spark"@[0]);
    assert(tags[0] == "shiro-pico"@ && tags[1] == "ghost"@ && tags[2] == "beat-spark"@);
    let two = tags.drop_last();
    let one = two.drop_last();
    let none = one.drop_last();
    assert(none =~= Seq::empty());
    assert(two.last() == "ghost"@ && one.last() == "shiro-pico"@);
    assert(profiles_of(src, none) =~= Seq::empty());
    lemma_look_pushed(src, one, tag);
    lemma_look_pushed(src, two, tag);
    lemma_look_pushed(src, tags, tag);
}

proof fn lemma_look_pushed(src: Seq<u8>, tags: Seq<Seq<char>>, tag: Seq<char>)
    requires
        tags.len() > 0,
    ensures
        look_of(profiles_of(src, tags), tag) == match look_of(
            profiles_of(src, tags.drop_last()),
            tag,
        ) {
            Some(look) => Some(look),
            None => if tags.last() == tag {
                profile_of(src, tag)
            } else {
                None
            },
        },
{
    let before = profiles_of(src, tags.drop_last());
    match profile_of(src, tags.last()) {
        Some(p) => lemma_look_of_push(before, (tags.last(), p), tag),
        None => {},
    }
}

proof fn lemma_look_of_push(
    list: Seq<(Seq<char>, RenderProfile)>,
    entry: (Seq<char>, RenderProfile),
    tag: Seq<char>,
)
    ensures
        look_of(list.push(entry), tag) == match look_of(list, tag) {
            Some(look) => Some(look),
            None => if entry.0 == tag {
                Some(entry.1)
            } else {
                None
            },
        },
    decreases list.len(),
{
    let all = list.push(entry);
    if list.len() == 0 {
        assert(all.drop_first() =~= Seq::empty());
        assert(look_of(all.drop_first(), tag) is None);
    } else {
        assert(all[0] == list[0]);
        assert(all.drop_first() =~= list.drop_first().push(entry));
        lemma_look_of_push(list.drop_first(), entry, tag);
    }
}

/// What a scene says of its bursts is read from the key of the bursts on: what stands
/// before it does not count.
pub proof fn law_bursts_are_read_from_their_key_on(
    front: Seq<u8>,
    other_front: Seq<u8>,
    rest: Seq<u8>,
)
    requires
        first_at(front + rest, encode_utf8(":fx/burst"@), front.len() as int),
        first_at(other_front + rest, encode_utf8(":fx/burst"@), other_front.len() as int),
    ensures
        ({
            let a = scene_of(front + rest);
            let b = scene_of(other_front + rest);
            &&& a.burst_count == b.burst_count
            &&& a.burst_speed == b.burst_speed
            &&& a.burst_life == b.burst_life
            &&& a.burst_color == b.burst_color
            &&& a.burst_size == b.burst_size
            &&& a.burst_speed == number_after(rest, ":speed "@, 0x4316_0000)
            &&& a.burst_life == number_after(rest, ":life "@, 0x3f19_999a)
            &&& a.burst_size == number_after(rest, ":size "@, 0x3c65_6042)
            &&& a.burst_count == whole(
                number_after(rest, ":count "@, 0x4120_0000),
            )
            &&& a.burst_color == color_in(rest)
        }),
{
    let key = encode_utf8(":fx/burst"@);
    lemma_found(front + rest, key, front.len() as int);
    lemma_found(other_front + rest, key, other_front.len() as int);
    assert((front + rest).skip(front.len() as int) =~= rest);
    assert((other_front + rest).skip(other_front.len() as int) =~= rest);
}

/// The speed of the player, the width of the camera and the arena stand behind their
/// keys, with what stands in for one that is missing: 240, 620 and 460.
pub proof fn law_scene_reads_its_numbers(src: Seq<u8>)
    ensures
        scene_of(src).player_speed == number_after(src, ":player-speed "@, 0x4370_0000),
        scene_of(src).camera_scale == number_after(src, ":camera-scale "@, 0x441b_0000),
        scene_of(src).arena == number_after(src, ":arena "@, 0x43e6_0000),
{
}

/// The title is what is written between quotation marks behind its key, but for the
/// first byte.
#[verifier::spinoff_prover]
pub proof fn law_title_is_written_in_quotes(
    front: Seq<u8>,
    skipped: u8,
    title: Seq<char>,
    behind: Seq<u8>,
)
    requires
        ({
            let key = encode_utf8(":game/title \""@);
            first_at(
                front + key + seq![skipped] + encode_utf8(title) + seq![34u8] + behind,
                key,
                front.len() as int,
            )
        }),
        forall|i: int|
            0 <= i < encode_utf8(title).len() ==> #[trigger] encode_utf8(title)[i] != 34,
    ensures
        scene_of(
            front + encode_utf8(":game/title \""@) + seq![skipped] + encode_utf8(title) + seq![34u8]
                + behind,
        ).title == title,
{
    let key = encode_utf8(":game/title \""@);
    let bytes = encode_utf8(title);
    let src = front + key + seq![skipped] + bytes + seq![34u8] + behind;
    reveal_strlit(":game/title \"");
    lemma_ascii(":game/title \""@);
    assert(key.len() == 13);
    lemma_found(src, key, front.len() as int);
    let start = front.len() + 14;
    let end = (start + bytes.len()) as int;
    assert(src[end] == 34);
    assert forall|j: int| start <= j < end implies #[trigger] src[j] != 34 by {
        assert(src[j] == bytes[j - start]);
    }
    lemma_byte_found(src, 34, start, end);
    assert(src.subrange(start as int, end) =~= bytes);
    encode_utf8_decode_utf8(title);
}

/// A scene without a title has a name for one.
pub proof fn law_scene_without_a_title(src: Seq<u8>)
    requires
        !holds(src, encode_utf8(":game/title \""@)),
    ensures
        scene_of(src).title == "kami-clj-play"@,
{
    lemma_found(src, encode_utf8(":game/title \""@), 0);
}

} // verus!
