use kami_script_runtime_rs::binary32::truncated;
use kami_script_runtime_rs::decimal::read_decimal;
use kami_script_runtime_rs::scene::{floats_after, is_readable, parse_scene, profile_block};

const SCENE: &str = r#"{:game/title "XNet Survivors",
 :player-speed 220.5,
 :camera-scale 600.0
 , :arena 512.25,
 :render
 {:shiro-pico
  {:color [0.9 0.8 1.0], :size 0.045, :glow 0.75, :pulse true},
  :ghost {:color [0.25 -0.5], :size 0.02, :glow .5},
  :beat-spark
  {:glow 1.},
 }
 :fx/burst {:count 14.9, :speed 180.0, :life 0.8, :color [1.0 0.5 0.25], :size 0.02}}
"#;

fn bits(x: f32) -> u32 {
    x.to_bits()
}

#[test]
fn decimals_read_as_the_nearest_number() {
    for t in [
        "0", "1", "-1", "0.1", "-0.1", ".5", "5.", "-.5", "240.0", "0.014", "3.4028235", "16777217",
        "16777219", "0.000000000000000000000000000000000000000000001",
        "0.0000000000000000000000000000000000000000000007",
        "340282350000000000000000000000000000000", "340282356779733661637539395458142568447",
        "340282356779733661637539395458142568448", "999999999999999999999999999999999999999999",
        "0.99999998211860656738281250000000000000001", "0.9999999821186065673828125", "-0",
        "123456789012345678901234567890.123456789", "00000.10000", "1.00000005960464477539062500001",
        "1.000000059604644775390625", "0.00000000000000000000000000000000000001175494350822287508",
    ] {
        let native: f32 = t.parse().unwrap();
        assert_eq!(read_decimal(t.as_bytes()), Some(native.to_bits()), "{t}");
    }
}

#[test]
fn decimals_agree_with_the_library_on_many_values() {
    let mut x: u64 = 12345;
    for _ in 0..400 {
        x ^= x << 13;
        x ^= x >> 7;
        x ^= x << 17;
        let places = (x % 12) as usize;
        let whole = (x >> 20) % 1_000_000_007;
        let text = format!("{}.{:0places$}", whole % 100_000, (x >> 9) % 10u64.pow(places as u32 + 1));
        let native: f32 = text.parse().unwrap();
        assert_eq!(read_decimal(text.as_bytes()), Some(native.to_bits()), "{text}");
    }
}

#[test]
fn what_is_no_decimal_is_refused() {
    for t in ["", "-", ".", "-.", "1.2.3", "--1", "1-", "1e5", "+1", " 1", "1 ", "inf", "nan"] {
        assert_eq!(read_decimal(t.as_bytes()), None, "{t}");
    }
}

#[test]
fn a_minus_turns_the_sign_and_zeros_in_front_do_nothing() {
    for t in ["0.3", "17", "0", "4.75"] {
        let plain = read_decimal(t.as_bytes()).unwrap();
        let minus = read_decimal(format!("-{t}").as_bytes()).unwrap();
        assert_eq!(minus, plain | 0x8000_0000);
        assert_eq!(read_decimal(format!("0{t}").as_bytes()).unwrap(), plain);
    }
}

#[test]
fn numbers_lose_their_fraction() {
    for x in [
        0.0f32, 0.99, 1.0, 10.0, 14.9, 16777216.0, 4294967296.0, 1e10, 1.8446742e19, 1.8446744e19,
        3e30, f32::MAX, f32::INFINITY, f32::NAN, -1.0, -0.5, -0.0, 1e-40, 8388607.5,
    ] {
        assert_eq!(truncated(x.to_bits()), x as usize, "{x}");
    }
}

#[test]
fn floats_behind_a_key() {
    let src = b"a :k [1.0 -2.5 x3 - 4.5.6 7] , 8 } :k 9";
    assert_eq!(
        floats_after(src, ":k ["),
        vec![bits(1.0), bits(-2.5), bits(3.0), bits(7.0)]
    );
    assert_eq!(floats_after(src, ":k "), floats_after(src, ":k ["));
    assert_eq!(floats_after(src, ":none"), Vec::<u32>::new());
    assert_eq!(floats_after(b":k }1", ":k "), Vec::<u32>::new());
    assert_eq!(floats_after(b":k 5", ":k "), vec![bits(5.0)]);
    assert_eq!(floats_after("\u{5e7d}:k \u{970a}6".as_bytes(), ":k "), vec![bits(6.0)]);
}

#[test]
fn profiles_are_the_first_block_behind_a_tag() {
    let p = profile_block(SCENE.as_bytes(), "shiro-pico").unwrap();
    assert_eq!(p.color, [bits(0.9), bits(0.8), bits(1.0)]);
    assert_eq!((p.size, p.glow, p.pulse), (bits(0.045), bits(0.75), true));
    let p = profile_block(SCENE.as_bytes(), "ghost").unwrap();
    assert_eq!(p.color, [bits(0.25), bits(-0.5), bits(1.0)]);
    assert_eq!((p.size, p.glow, p.pulse), (bits(0.02), bits(0.5), false));
    let p = profile_block(SCENE.as_bytes(), "beat-spark").unwrap();
    assert_eq!(p.color, [bits(1.0); 3]);
    assert_eq!((p.size, p.glow, p.pulse), (bits(0.03), bits(1.0), false));
    assert!(profile_block(SCENE.as_bytes(), "nobody").is_none());
    assert!(profile_block(b":ghost without a block", "ghost").is_none());
    assert!(profile_block(b":ghost {:size 1.0", "ghost").is_none());
    assert!(profile_block(b"{:ghost}", "ghost").is_none());
}

#[test]
fn a_tag_at_the_end_of_a_line_comes_first() {
    let src = b":ghost {:size 1.0} :ghost\n {:size 2.0}";
    assert_eq!(profile_block(src, "ghost").unwrap().size, bits(2.0));
}

#[test]
fn a_scene_is_read_whole() {
    assert!(is_readable(SCENE));
    let s = parse_scene(SCENE);
    assert_eq!(s.title, "Net Survivors", "a title starts fourteen bytes behind its key");
    assert_eq!(s.player_speed, bits(220.5));
    assert_eq!(s.camera_scale, bits(600.0));
    assert_eq!(s.arena, bits(512.25));
    let tags: Vec<&str> = s.profiles.iter().map(|p| p.tag.as_str()).collect();
    assert_eq!(tags, vec!["shiro-pico", "ghost", "beat-spark"]);
    assert_eq!(s.burst_count, 14);
    assert_eq!(s.burst_speed, bits(180.0));
    assert_eq!(s.burst_life, bits(0.8));
    assert_eq!(s.burst_color, [bits(1.0), bits(0.5), bits(0.25)]);
    assert_eq!(s.burst_size, bits(0.02));
}

#[test]
fn an_empty_scene_has_every_default() {
    assert!(is_readable(""));
    let s = parse_scene("");
    assert_eq!(s.title, "kami-clj-play");
    assert_eq!(s.player_speed, bits(240.0));
    assert_eq!(s.camera_scale, bits(620.0));
    assert_eq!(s.arena, bits(460.0));
    assert!(s.profiles.is_empty());
    assert_eq!(s.burst_count, 10);
    assert_eq!(s.burst_speed, bits(150.0));
    assert_eq!(s.burst_life, bits(0.6));
    assert_eq!(s.burst_color, [bits(1.0); 3]);
    assert_eq!(s.burst_size, bits(0.014));
}

#[test]
fn only_what_follows_the_burst_is_its() {
    let s = parse_scene(":count 3.0, :speed 4.0, :fx/burst {:life 2.0}");
    assert_eq!(s.burst_count, 10);
    assert_eq!(s.burst_speed, bits(150.0));
    assert_eq!(s.burst_life, bits(2.0));
}

#[test]
fn titles_that_cannot_be_read() {
    assert!(!is_readable(":game/title \""));
    assert!(!is_readable(":game/title \"\u{5e7d}\u{970a}\""));
    assert!(is_readable(":game/title \"x\u{5e7d}\u{970a}\""));
    assert_eq!(parse_scene(":game/title \"x\u{5e7d}\u{970a}\"").title, "\u{5e7d}\u{970a}");
    assert_eq!(parse_scene(":game/title \"xyz").title, "yz");
    assert_eq!(parse_scene(":game/title \"x\"").title, "");
}
