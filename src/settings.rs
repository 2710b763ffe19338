//! System-wide settings of the device.

use vstd::prelude::*;
use crate::wire::{
    lemma_skip_skip, lemma_split_step, lemma_take_split, lemma_wrote_then, wrote_to, DecodeError,
    Encode, EncodeError,
};

verus! {

/// System-wide settings of the device.
#[derive(Clone, Debug, PartialEq, Eq)]
pub struct Settings {
    /// How much XP the player earned over all games.
    pub xp: u32,
    /// How many badges the player earned over all games.
    pub badges: u32,
    /// A two-letter ASCII ISO 639 Set 1 language code.
    pub lang: [u8; 2],
    /// The device name.
    pub name: String,
    /// The full timezone name as in the IANA database.
    pub timezone: String,
    /// If the screen is upside down.
    pub rotate_screen: bool,
    pub screen_brightness: u8,
    pub leds_brightness: u8,
    pub speakers_volume: u8,
    pub headphones_volume: u8,
    pub font_size: u8,
    /// The color theme, as an ID.
    pub theme: u32,
    /// Minutes of inactivity before the screen locks; 0 is never.
    pub auto_lock: u8,
    pub reduce_flashing: bool,
    /// If anonymous usage data may be sent.
    pub telemetry: bool,
    pub gamepad_mode: bool,
    /// If the high-contrast palette is used.
    pub contrast: bool,
    pub easter_eggs: bool,
    /// Reserved for future flags; its bits have no meaning yet.
    pub extra_flags: u32,
}

impl Default for Settings {
    /// The settings used when none were saved.
    fn default() -> (r: Self)
        ensures
            r.xp == 0,
            r.badges == 0,
            r.lang@ == seq![0x65u8, 0x6eu8],
            r.name@ == "firefly-zero"@,
            r.timezone@ == "Europe/Amsterdam"@,
            !r.rotate_screen,
            r.screen_brightness == 255,
            r.leds_brightness == 255,
            r.speakers_volume == 64,
            r.headphones_volume == 64,
            r.font_size == 9,
            r.theme == 0x0D6C00,
            r.auto_lock == 5,
            !r.reduce_flashing,
            !r.telemetry,
            !r.gamepad_mode,
            !r.contrast,
            !r.easter_eggs,
            r.extra_flags == 0,
    {
        let mut lang: [u8; 2] = [0u8; 2];
        lang[0] = 0x65;
        lang[1] = 0x6e;
        assert(lang@ =~= seq![0x65u8, 0x6eu8]);
        Settings {
            xp: 0,
            badges: 0,
            lang,
            name: "firefly-zero".to_owned(),
            timezone: "Europe/Amsterdam".to_owned(),
            rotate_screen: false,
            screen_brightness: 255,
            leds_brightness: 255,
            speakers_volume: 64,
            headphones_volume: 64,
            font_size: 9,
            theme: 0x0D6C00,
            auto_lock: 5,
            reduce_flashing: false,
            telemetry: false,
            gamepad_mode: false,
            contrast: false,
            easter_eggs: false,
            extra_flags: 0,
        }
    }
}

/// The model of a [`Settings`].
pub ghost struct SettingsModel {
    pub xp: u32,
    pub badges: u32,
    pub lang: Seq<u8>,
    pub name: Seq<char>,
    pub timezone: Seq<char>,
    pub rotate_screen: bool,
    pub screen_brightness: u8,
    pub leds_brightness: u8,
    pub speakers_volume: u8,
    pub headphones_volume: u8,
    pub font_size: u8,
    pub theme: u32,
    pub auto_lock: u8,
    pub reduce_flashing: bool,
    pub telemetry: bool,
    pub gamepad_mode: bool,
    pub contrast: bool,
    pub easter_eggs: bool,
    pub extra_flags: u32,
}

impl DeepView for Settings {
    type V = SettingsModel;

    open spec fn deep_view(&self) -> SettingsModel {
        SettingsModel {
            xp: self.xp,
            badges: self.badges,
            lang: self.lang.deep_view(),
            name: self.name.deep_view(),
            timezone: self.timezone.deep_view(),
            rotate_screen: self.rotate_screen,
            screen_brightness: self.screen_brightness,
            leds_brightness: self.leds_brightness,
            speakers_volume: self.speakers_volume,
            headphones_volume: self.headphones_volume,
            font_size: self.font_size,
            theme: self.theme,
            auto_lock: self.auto_lock,
            reduce_flashing: self.reduce_flashing,
            telemetry: self.telemetry,
            gamepad_mode: self.gamepad_mode,
            contrast: self.contrast,
            easter_eggs: self.easter_eggs,
            extra_flags: self.extra_flags,
        }
    }
}

impl<'a> Settings {
    /// The encoding of the fields from `xp` to `screen_brightness`.
    pub open spec fn spec_enc_group_0(v: SettingsModel) -> Seq<u8> {
        <u32 as Encode<'a>>::spec_enc(v.xp) + (<u32 as Encode<'a>>::spec_enc(v.badges) + (<[u8; 2] as Encode<'a>>::spec_enc(v.lang) + (<String as Encode<'a>>::spec_enc(v.name) + (<String as Encode<'a>>::spec_enc(v.timezone) + (<bool as Encode<'a>>::spec_enc(v.rotate_screen) + (<u8 as Encode<'a>>::spec_enc(v.screen_brightness)))))))
    }

    /// What decoding the fields from `xp` to `screen_brightness` makes of the front of `s`.
    pub open spec fn spec_parse_group_0(s: Seq<u8>) -> Result<((u32, u32, Seq<u8>, Seq<char>, Seq<char>, bool, u8), nat), DecodeError> {
        match <u32 as Encode<'a>>::spec_parse(s) {
            Err(e) => Err(e),
            Ok((xp, n0)) => {
                let s1 = s.skip(n0 as int);
                match <u32 as Encode<'a>>::spec_parse(s1) {
                    Err(e) => Err(e),
                    Ok((badges, n1)) => {
                        let s2 = s1.skip(n1 as int);
                        match <[u8; 2] as Encode<'a>>::spec_parse(s2) {
                            Err(e) => Err(e),
                            Ok((lang, n2)) => {
                                let s3 = s2.skip(n2 as int);
                                match <String as Encode<'a>>::spec_parse(s3) {
                                    Err(e) => Err(e),
                                    Ok((name, n3)) => {
                                        let s4 = s3.skip(n3 as int);
                                        match <String as Encode<'a>>::spec_parse(s4) {
                                            Err(e) => Err(e),
                                            Ok((timezone, n4)) => {
                                                let s5 = s4.skip(n4 as int);
                                                match <bool as Encode<'a>>::spec_parse(s5) {
                                                    Err(e) => Err(e),
                                                    Ok((rotate_screen, n5)) => {
                                                        let s6 = s5.skip(n5 as int);
                                                        match <u8 as Encode<'a>>::spec_parse(s6) {
                                                            Err(e) => Err(e),
                                                            Ok((screen_brightness, n6)) => {
                                                                Ok(((xp, badges, lang, name, timezone, rotate_screen, screen_brightness), n0 + n1 + n2 + n3 + n4 + n5 + n6))
                                                            },
                                                        }
                                                    },
                                                }
                                            },
                                        }
                                    },
                                }
                            },
                        }
                    },
                }
            },
        }
    }

    #[verifier::rlimit(40)]
    proof fn lemma_group_0(x: Settings, rest: Seq<u8>)
        requires
            Self::spec_enc_group_0(x.deep_view()).len() <= usize::MAX,
        ensures
            Self::spec_parse_group_0(Self::spec_enc_group_0(x.deep_view()) + rest) == Ok::<
                ((u32, u32, Seq<u8>, Seq<char>, Seq<char>, bool, u8), nat),
                DecodeError,
            >(((x.deep_view().xp, x.deep_view().badges, x.deep_view().lang, x.deep_view().name, x.deep_view().timezone, x.deep_view().rotate_screen, x.deep_view().screen_brightness), Self::spec_enc_group_0(x.deep_view()).len())),
            Self::spec_enc_group_0(x.deep_view()).len() >= 1,
    {
        let v = x.deep_view();
        let e0 = <u32 as Encode<'a>>::spec_enc(v.xp);
        let e1 = <u32 as Encode<'a>>::spec_enc(v.badges);
        let e2 = <[u8; 2] as Encode<'a>>::spec_enc(v.lang);
        let e3 = <String as Encode<'a>>::spec_enc(v.name);
        let e4 = <String as Encode<'a>>::spec_enc(v.timezone);
        let e5 = <bool as Encode<'a>>::spec_enc(v.rotate_screen);
        let e6 = <u8 as Encode<'a>>::spec_enc(v.screen_brightness);
        let x6 = e6;
        let x5 = e5 + x6;
        let x4 = e4 + x5;
        let x3 = e3 + x4;
        let x2 = e2 + x3;
        let x1 = e1 + x2;
        lemma_split_step(e0, x1, rest);
        <u32 as Encode<'a>>::lemma_round_trip(x.xp, x1 + rest);
        lemma_split_step(e1, x2, rest);
        <u32 as Encode<'a>>::lemma_round_trip(x.badges, x2 + rest);
        lemma_split_step(e2, x3, rest);
        <[u8; 2] as Encode<'a>>::lemma_round_trip(x.lang, x3 + rest);
        lemma_split_step(e3, x4, rest);
        <String as Encode<'a>>::lemma_round_trip(x.name, x4 + rest);
        lemma_split_step(e4, x5, rest);
        <String as Encode<'a>>::lemma_round_trip(x.timezone, x5 + rest);
        lemma_split_step(e5, x6, rest);
        <bool as Encode<'a>>::lemma_round_trip(x.rotate_screen, x6 + rest);
        <u8 as Encode<'a>>::lemma_round_trip(x.screen_brightness, rest);
    }

    #[verifier::rlimit(40)]
    proof fn lemma_group_prefix_0(x: Settings, k: int)
        requires
            Self::spec_enc_group_0(x.deep_view()).len() <= usize::MAX,
            0 <= k < Self::spec_enc_group_0(x.deep_view()).len(),
        ensures
            Self::spec_parse_group_0(Self::spec_enc_group_0(x.deep_view()).take(k)) == Err::<
                ((u32, u32, Seq<u8>, Seq<char>, Seq<char>, bool, u8), nat),
                DecodeError,
            >(DecodeError::Truncated),
    {
        let v = x.deep_view();
        let e0 = <u32 as Encode<'a>>::spec_enc(v.xp);
        let e1 = <u32 as Encode<'a>>::spec_enc(v.badges);
        let e2 = <[u8; 2] as Encode<'a>>::spec_enc(v.lang);
        let e3 = <String as Encode<'a>>::spec_enc(v.name);
        let e4 = <String as Encode<'a>>::spec_enc(v.timezone);
        let e5 = <bool as Encode<'a>>::spec_enc(v.rotate_screen);
        let e6 = <u8 as Encode<'a>>::spec_enc(v.screen_brightness);
        let x6 = e6;
        let x5 = e5 + x6;
        let x4 = e4 + x5;
        let x3 = e3 + x4;
        let x2 = e2 + x3;
        let x1 = e1 + x2;
        let x0 = e0 + x1;
        lemma_take_split(e0, x1, k);
        if k < e0.len() {
            <u32 as Encode<'a>>::lemma_prefix_truncated(x.xp, k);
        } else {
            let k1 = k - e0.len();
            <u32 as Encode<'a>>::lemma_round_trip(x.xp, x1.take(k1));
            lemma_take_split(e1, x2, k1);
            if k1 < e1.len() {
                <u32 as Encode<'a>>::lemma_prefix_truncated(x.badges, k1);
            } else {
                let k2 = k1 - e1.len();
                <u32 as Encode<'a>>::lemma_round_trip(x.badges, x2.take(k2));
                lemma_take_split(e2, x3, k2);
                if k2 < e2.len() {
                    <[u8; 2] as Encode<'a>>::lemma_prefix_truncated(x.lang, k2);
                } else {
                    let k3 = k2 - e2.len();
                    <[u8; 2] as Encode<'a>>::lemma_round_trip(x.lang, x3.take(k3));
                    lemma_take_split(e3, x4, k3);
                    if k3 < e3.len() {
                        <String as Encode<'a>>::lemma_prefix_truncated(x.name, k3);
                    } else {
                        let k4 = k3 - e3.len();
                        <String as Encode<'a>>::lemma_round_trip(x.name, x4.take(k4));
                        lemma_take_split(e4, x5, k4);
                        if k4 < e4.len() {
                            <String as Encode<'a>>::lemma_prefix_truncated(x.timezone, k4);
                        } else {
                            let k5 = k4 - e4.len();
                            <String as Encode<'a>>::lemma_round_trip(x.timezone, x5.take(k5));
                            lemma_take_split(e5, x6, k5);
                            if k5 < e5.len() {
                                <bool as Encode<'a>>::lemma_prefix_truncated(x.rotate_screen, k5);
                            } else {
                                let k6 = k5 - e5.len();
                                <bool as Encode<'a>>::lemma_round_trip(x.rotate_screen, x6.take(k6));
                                <u8 as Encode<'a>>::lemma_prefix_truncated(x.screen_brightness, k6);
                            }
                        }
                    }
                }
            }
        }
    }

    #[verifier::rlimit(40)]
    proof fn lemma_group_prefix_1(x: Settings, k: int)
        requires
            Self::spec_enc_group_1(x.deep_view()).len() <= usize::MAX,
            0 <= k < Self::spec_enc_group_1(x.deep_view()).len(),
        ensures
            Self::spec_parse_group_1(Self::spec_enc_group_1(x.deep_view()).take(k)) == Err::<
                ((u8, u8, u8, u8, u32, u8), nat),
                DecodeError,
            >(DecodeError::Truncated),
    {
        let v = x.deep_view();
        let e0 = <u8 as Encode<'a>>::spec_enc(v.leds_brightness);
        let e1 = <u8 as Encode<'a>>::spec_enc(v.speakers_volume);
        let e2 = <u8 as Encode<'a>>::spec_enc(v.headphones_volume);
        let e3 = <u8 as Encode<'a>>::spec_enc(v.font_size);
        let e4 = <u32 as Encode<'a>>::spec_enc(v.theme);
        let e5 = <u8 as Encode<'a>>::spec_enc(v.auto_lock);
        let x5 = e5;
        let x4 = e4 + x5;
        let x3 = e3 + x4;
        let x2 = e2 + x3;
        let x1 = e1 + x2;
        let x0 = e0 + x1;
        lemma_take_split(e0, x1, k);
        if k < e0.len() {
            <u8 as Encode<'a>>::lemma_prefix_truncated(x.leds_brightness, k);
        } else {
            let k1 = k - e0.len();
            <u8 as Encode<'a>>::lemma_round_trip(x.leds_brightness, x1.take(k1));
            lemma_take_split(e1, x2, k1);
            if k1 < e1.len() {
                <u8 as Encode<'a>>::lemma_prefix_truncated(x.speakers_volume, k1);
            } else {
                let k2 = k1 - e1.len();
                <u8 as Encode<'a>>::lemma_round_trip(x.speakers_volume, x2.take(k2));
                lemma_take_split(e2, x3, k2);
                if k2 < e2.len() {
                    <u8 as Encode<'a>>::lemma_prefix_truncated(x.headphones_volume, k2);
                } else {
                    let k3 = k2 - e2.len();
                    <u8 as Encode<'a>>::lemma_round_trip(x.headphones_volume, x3.take(k3));
                    lemma_take_split(e3, x4, k3);
                    if k3 < e3.len() {
                        <u8 as Encode<'a>>::lemma_prefix_truncated(x.font_size, k3);
                    } else {
                        let k4 = k3 - e3.len();
                        <u8 as Encode<'a>>::lemma_round_trip(x.font_size, x4.take(k4));
                        lemma_take_split(e4, x5, k4);
                        if k4 < e4.len() {
                            <u32 as Encode<'a>>::lemma_prefix_truncated(x.theme, k4);
                        } else {
                            let k5 = k4 - e4.len();
                            <u32 as Encode<'a>>::lemma_round_trip(x.theme, x5.take(k5));
                            <u8 as Encode<'a>>::lemma_prefix_truncated(x.auto_lock, k5);
                        }
                    }
                }
            }
        }
    }

    #[verifier::rlimit(40)]
    proof fn lemma_group_prefix_2(x: Settings, k: int)
        requires
            Self::spec_enc_group_2(x.deep_view()).len() <= usize::MAX,
            0 <= k < Self::spec_enc_group_2(x.deep_view()).len(),
        ensures
            Self::spec_parse_group_2(Self::spec_enc_group_2(x.deep_view()).take(k)) == Err::<
                ((bool, bool, bool), nat),
                DecodeError,
            >(DecodeError::Truncated),
    {
        let v = x.deep_view();
        let e0 = <bool as Encode<'a>>::spec_enc(v.reduce_flashing);
        let e1 = <bool as Encode<'a>>::spec_enc(v.telemetry);
        let e2 = <bool as Encode<'a>>::spec_enc(v.gamepad_mode);
        let x2 = e2;
        let x1 = e1 + x2;
        let x0 = e0 + x1;
        lemma_take_split(e0, x1, k);
        if k < e0.len() {
            <bool as Encode<'a>>::lemma_prefix_truncated(x.reduce_flashing, k);
        } else {
            let k1 = k - e0.len();
            <bool as Encode<'a>>::lemma_round_trip(x.reduce_flashing, x1.take(k1));
            lemma_take_split(e1, x2, k1);
            if k1 < e1.len() {
                <bool as Encode<'a>>::lemma_prefix_truncated(x.telemetry, k1);
            } else {
                let k2 = k1 - e1.len();
                <bool as Encode<'a>>::lemma_round_trip(x.telemetry, x2.take(k2));
                <bool as Encode<'a>>::lemma_prefix_truncated(x.gamepad_mode, k2);
            }
        }
    }

    #[verifier::rlimit(40)]
    proof fn lemma_group_prefix_3(x: Settings, k: int)
        requires
            Self::spec_enc_group_3(x.deep_view()).len() <= usize::MAX,
            0 <= k < Self::spec_enc_group_3(x.deep_view()).len(),
        ensures
            Self::spec_parse_group_3(Self::spec_enc_group_3(x.deep_view()).take(k)) == Err::<
                ((bool, bool, u32), nat),
                DecodeError,
            >(DecodeError::Truncated),
    {
        let v = x.deep_view();
        let e0 = <bool as Encode<'a>>::spec_enc(v.contrast);
        let e1 = <bool as Encode<'a>>::spec_enc(v.easter_eggs);
        let e2 = <u32 as Encode<'a>>::spec_enc(v.extra_flags);
        let x2 = e2;
        let x1 = e1 + x2;
        let x0 = e0 + x1;
        lemma_take_split(e0, x1, k);
        if k < e0.len() {
            <bool as Encode<'a>>::lemma_prefix_truncated(x.contrast, k);
        } else {
            let k1 = k - e0.len();
            <bool as Encode<'a>>::lemma_round_trip(x.contrast, x1.take(k1));
            lemma_take_split(e1, x2, k1);
            if k1 < e1.len() {
                <bool as Encode<'a>>::lemma_prefix_truncated(x.easter_eggs, k1);
            } else {
                let k2 = k1 - e1.len();
                <bool as Encode<'a>>::lemma_round_trip(x.easter_eggs, x2.take(k2));
                <u32 as Encode<'a>>::lemma_prefix_truncated(x.extra_flags, k2);
            }
        }
    }

    #[verifier::rlimit(40)]
    fn size_group_0(&self) -> (r: usize)
        requires
            Self::spec_enc_group_0(self.deep_view()).len() <= usize::MAX,
        ensures
            r == Self::spec_enc_group_0(self.deep_view()).len(),
    {
        let n0 = self.xp.size();
        let n1 = self.badges.size();
        let n2 = self.lang.size();
        let n3 = self.name.size();
        let n4 = self.timezone.size();
        let n5 = self.rotate_screen.size();
        let n6 = self.screen_brightness.size();
        n0 + n1 + n2 + n3 + n4 + n5 + n6
    }

    #[verifier::rlimit(40)]
    fn encode_group_0(&self, buf: &mut [u8], pos: usize) -> (r: Result<usize, EncodeError>)
        requires
            pos <= old(buf)@.len(),
        ensures
            wrote_to(old(buf)@, final(buf)@, pos as int, Self::spec_enc_group_0(self.deep_view()), r),
    {
        let ghost v = self.deep_view();
        let ghost b0 = buf@;
        let p1 = self.xp.encode_at(buf, pos)?;
        let ghost b1 = buf@;
        let p2 = self.badges.encode_at(buf, p1)?;
        let ghost b2 = buf@;
        let p3 = self.lang.encode_at(buf, p2)?;
        let ghost b3 = buf@;
        let p4 = self.name.encode_at(buf, p3)?;
        let ghost b4 = buf@;
        let p5 = self.timezone.encode_at(buf, p4)?;
        let ghost b5 = buf@;
        let p6 = self.rotate_screen.encode_at(buf, p5)?;
        let ghost b6 = buf@;
        let p7 = self.screen_brightness.encode_at(buf, p6)?;
        let ghost b7 = buf@;
        proof {
            let e0 = <u32 as Encode<'a>>::spec_enc(v.xp);
            let e1 = <u32 as Encode<'a>>::spec_enc(v.badges);
            let e2 = <[u8; 2] as Encode<'a>>::spec_enc(v.lang);
            let e3 = <String as Encode<'a>>::spec_enc(v.name);
            let e4 = <String as Encode<'a>>::spec_enc(v.timezone);
            let e5 = <bool as Encode<'a>>::spec_enc(v.rotate_screen);
            let e6 = <u8 as Encode<'a>>::spec_enc(v.screen_brightness);
            let x6 = e6;
            let x5 = e5 + x6;
            lemma_wrote_then(b5, b6, b7, p5 as int, e5, x6, p6, p7);
            let x4 = e4 + x5;
            lemma_wrote_then(b4, b5, b7, p4 as int, e4, x5, p5, p7);
            let x3 = e3 + x4;
            lemma_wrote_then(b3, b4, b7, p3 as int, e3, x4, p4, p7);
            let x2 = e2 + x3;
            lemma_wrote_then(b2, b3, b7, p2 as int, e2, x3, p3, p7);
            let x1 = e1 + x2;
            lemma_wrote_then(b1, b2, b7, p1 as int, e1, x2, p2, p7);
            lemma_wrote_then(b0, b1, b7, pos as int, e0, x1, p1, p7);
        }
        Ok(p7)
    }

    #[verifier::rlimit(40)]
    fn decode_group_0(buf: &'a [u8], pos: usize) -> (r: Result<((u32, u32, [u8; 2], String, String, bool, u8), usize), DecodeError>)
        requires
            pos <= buf@.len(),
        ensures
            match r {
                Ok((t, end)) => pos <= end <= buf@.len() && Self::spec_parse_group_0(buf@.skip(pos as int))
                    == Ok::<((u32, u32, Seq<u8>, Seq<char>, Seq<char>, bool, u8), nat), DecodeError>((t.deep_view(), (end - pos) as nat)),
                Err(e) => Self::spec_parse_group_0(buf@.skip(pos as int)) == Err::<((u32, u32, Seq<u8>, Seq<char>, Seq<char>, bool, u8), nat), DecodeError>(e),
            },
    {
        let (xp, p1) = <u32 as Encode<'a>>::decode_at(buf, pos)?;
        proof {
            lemma_skip_skip(buf@, pos as int, p1 as int);
        }
        let (badges, p2) = <u32 as Encode<'a>>::decode_at(buf, p1)?;
        proof {
            lemma_skip_skip(buf@, p1 as int, p2 as int);
        }
        let (lang, p3) = <[u8; 2] as Encode<'a>>::decode_at(buf, p2)?;
        proof {
            lemma_skip_skip(buf@, p2 as int, p3 as int);
        }
        let (name, p4) = <String as Encode<'a>>::decode_at(buf, p3)?;
        proof {
            lemma_skip_skip(buf@, p3 as int, p4 as int);
        }
        let (timezone, p5) = <String as Encode<'a>>::decode_at(buf, p4)?;
        proof {
            lemma_skip_skip(buf@, p4 as int, p5 as int);
        }
        let (rotate_screen, p6) = <bool as Encode<'a>>::decode_at(buf, p5)?;
        proof {
            lemma_skip_skip(buf@, p5 as int, p6 as int);
        }
        let (screen_brightness, p7) = <u8 as Encode<'a>>::decode_at(buf, p6)?;
        proof {
            lemma_skip_skip(buf@, p6 as int, p7 as int);
        }
        Ok(((xp, badges, lang, name, timezone, rotate_screen, screen_brightness), p7))
    }

    /// The encoding of the fields from `leds_brightness` to `auto_lock`.
    pub open spec fn spec_enc_group_1(v: SettingsModel) -> Seq<u8> {
        <u8 as Encode<'a>>::spec_enc(v.leds_brightness) + (<u8 as Encode<'a>>::spec_enc(v.speakers_volume) + (<u8 as Encode<'a>>::spec_enc(v.headphones_volume) + (<u8 as Encode<'a>>::spec_enc(v.font_size) + (<u32 as Encode<'a>>::spec_enc(v.theme) + (<u8 as Encode<'a>>::spec_enc(v.auto_lock))))))
    }

    /// What decoding the fields from `leds_brightness` to `auto_lock` makes of the front of `s`.
    pub open spec fn spec_parse_group_1(s: Seq<u8>) -> Result<((u8, u8, u8, u8, u32, u8), nat), DecodeError> {
        match <u8 as Encode<'a>>::spec_parse(s) {
            Err(e) => Err(e),
            Ok((leds_brightness, n0)) => {
                let s1 = s.skip(n0 as int);
                match <u8 as Encode<'a>>::spec_parse(s1) {
                    Err(e) => Err(e),
                    Ok((speakers_volume, n1)) => {
                        let s2 = s1.skip(n1 as int);
                        match <u8 as Encode<'a>>::spec_parse(s2) {
                            Err(e) => Err(e),
                            Ok((headphones_volume, n2)) => {
                                let s3 = s2.skip(n2 as int);
                                match <u8 as Encode<'a>>::spec_parse(s3) {
                                    Err(e) => Err(e),
                                    Ok((font_size, n3)) => {
                                        let s4 = s3.skip(n3 as int);
                                        match <u32 as Encode<'a>>::spec_parse(s4) {
                                            Err(e) => Err(e),
                                            Ok((theme, n4)) => {
                                                let s5 = s4.skip(n4 as int);
                                                match <u8 as Encode<'a>>::spec_parse(s5) {
                                                    Err(e) => Err(e),
                                                    Ok((auto_lock, n5)) => {
                                                        Ok(((leds_brightness, speakers_volume, headphones_volume, font_size, theme, auto_lock), n0 + n1 + n2 + n3 + n4 + n5))
                                                    },
                                                }
                                            },
                                        }
                                    },
                                }
                            },
                        }
                    },
                }
            },
        }
    }

    #[verifier::rlimit(40)]
    proof fn lemma_group_1(x: Settings, rest: Seq<u8>)
        requires
            Self::spec_enc_group_1(x.deep_view()).len() <= usize::MAX,
        ensures
            Self::spec_parse_group_1(Self::spec_enc_group_1(x.deep_view()) + rest) == Ok::<
                ((u8, u8, u8, u8, u32, u8), nat),
                DecodeError,
            >(((x.deep_view().leds_brightness, x.deep_view().speakers_volume, x.deep_view().headphones_volume, x.deep_view().font_size, x.deep_view().theme, x.deep_view().auto_lock), Self::spec_enc_group_1(x.deep_view()).len())),
            Self::spec_enc_group_1(x.deep_view()).len() >= 1,
    {
        let v = x.deep_view();
        let e0 = <u8 as Encode<'a>>::spec_enc(v.leds_brightness);
        let e1 = <u8 as Encode<'a>>::spec_enc(v.speakers_volume);
        let e2 = <u8 as Encode<'a>>::spec_enc(v.headphones_volume);
        let e3 = <u8 as Encode<'a>>::spec_enc(v.font_size);
        let e4 = <u32 as Encode<'a>>::spec_enc(v.theme);
        let e5 = <u8 as Encode<'a>>::spec_enc(v.auto_lock);
        let x5 = e5;
        let x4 = e4 + x5;
        let x3 = e3 + x4;
        let x2 = e2 + x3;
        let x1 = e1 + x2;
        lemma_split_step(e0, x1, rest);
        <u8 as Encode<'a>>::lemma_round_trip(x.leds_brightness, x1 + rest);
        lemma_split_step(e1, x2, rest);
        <u8 as Encode<'a>>::lemma_round_trip(x.speakers_volume, x2 + rest);
        lemma_split_step(e2, x3, rest);
        <u8 as Encode<'a>>::lemma_round_trip(x.headphones_volume, x3 + rest);
        lemma_split_step(e3, x4, rest);
        <u8 as Encode<'a>>::lemma_round_trip(x.font_size, x4 + rest);
        lemma_split_step(e4, x5, rest);
        <u32 as Encode<'a>>::lemma_round_trip(x.theme, x5 + rest);
        <u8 as Encode<'a>>::lemma_round_trip(x.auto_lock, rest);
    }

    #[verifier::rlimit(40)]
    fn size_group_1(&self) -> (r: usize)
        requires
            Self::spec_enc_group_1(self.deep_view()).len() <= usize::MAX,
        ensures
            r == Self::spec_enc_group_1(self.deep_view()).len(),
    {
        let n0 = self.leds_brightness.size();
        let n1 = self.speakers_volume.size();
        let n2 = self.headphones_volume.size();
        let n3 = self.font_size.size();
        let n4 = self.theme.size();
        let n5 = self.auto_lock.size();
        n0 + n1 + n2 + n3 + n4 + n5
    }

    #[verifier::rlimit(40)]
    fn encode_group_1(&self, buf: &mut [u8], pos: usize) -> (r: Result<usize, EncodeError>)
        requires
            pos <= old(buf)@.len(),
        ensures
            wrote_to(old(buf)@, final(buf)@, pos as int, Self::spec_enc_group_1(self.deep_view()), r),
    {
        let ghost v = self.deep_view();
        let ghost b0 = buf@;
        let p1 = self.leds_brightness.encode_at(buf, pos)?;
        let ghost b1 = buf@;
        let p2 = self.speakers_volume.encode_at(buf, p1)?;
        let ghost b2 = buf@;
        let p3 = self.headphones_volume.encode_at(buf, p2)?;
        let ghost b3 = buf@;
        let p4 = self.font_size.encode_at(buf, p3)?;
        let ghost b4 = buf@;
        let p5 = self.theme.encode_at(buf, p4)?;
        let ghost b5 = buf@;
        let p6 = self.auto_lock.encode_at(buf, p5)?;
        let ghost b6 = buf@;
        proof {
            let e0 = <u8 as Encode<'a>>::spec_enc(v.leds_brightness);
            let e1 = <u8 as Encode<'a>>::spec_enc(v.speakers_volume);
            let e2 = <u8 as Encode<'a>>::spec_enc(v.headphones_volume);
            let e3 = <u8 as Encode<'a>>::spec_enc(v.font_size);
            let e4 = <u32 as Encode<'a>>::spec_enc(v.theme);
            let e5 = <u8 as Encode<'a>>::spec_enc(v.auto_lock);
            let x5 = e5;
            let x4 = e4 + x5;
            lemma_wrote_then(b4, b5, b6, p4 as int, e4, x5, p5, p6);
            let x3 = e3 + x4;
            lemma_wrote_then(b3, b4, b6, p3 as int, e3, x4, p4, p6);
            let x2 = e2 + x3;
            lemma_wrote_then(b2, b3, b6, p2 as int, e2, x3, p3, p6);
            let x1 = e1 + x2;
            lemma_wrote_then(b1, b2, b6, p1 as int, e1, x2, p2, p6);
            lemma_wrote_then(b0, b1, b6, pos as int, e0, x1, p1, p6);
        }
        Ok(p6)
    }

    #[verifier::rlimit(40)]
    fn decode_group_1(buf: &'a [u8], pos: usize) -> (r: Result<((u8, u8, u8, u8, u32, u8), usize), DecodeError>)
        requires
            pos <= buf@.len(),
        ensures
            match r {
                Ok((t, end)) => pos <= end <= buf@.len() && Self::spec_parse_group_1(buf@.skip(pos as int))
                    == Ok::<((u8, u8, u8, u8, u32, u8), nat), DecodeError>((t.deep_view(), (end - pos) as nat)),
                Err(e) => Self::spec_parse_group_1(buf@.skip(pos as int)) == Err::<((u8, u8, u8, u8, u32, u8), nat), DecodeError>(e),
            },
    {
        let (leds_brightness, p1) = <u8 as Encode<'a>>::decode_at(buf, pos)?;
        proof {
            lemma_skip_skip(buf@, pos as int, p1 as int);
        }
        let (speakers_volume, p2) = <u8 as Encode<'a>>::decode_at(buf, p1)?;
        proof {
            lemma_skip_skip(buf@, p1 as int, p2 as int);
        }
        let (headphones_volume, p3) = <u8 as Encode<'a>>::decode_at(buf, p2)?;
        proof {
            lemma_skip_skip(buf@, p2 as int, p3 as int);
        }
        let (font_size, p4) = <u8 as Encode<'a>>::decode_at(buf, p3)?;
        proof {
            lemma_skip_skip(buf@, p3 as int, p4 as int);
        }
        let (theme, p5) = <u32 as Encode<'a>>::decode_at(buf, p4)?;
        proof {
            lemma_skip_skip(buf@, p4 as int, p5 as int);
        }
        let (auto_lock, p6) = <u8 as Encode<'a>>::decode_at(buf, p5)?;
        proof {
            lemma_skip_skip(buf@, p5 as int, p6 as int);
        }
        Ok(((leds_brightness, speakers_volume, headphones_volume, font_size, theme, auto_lock), p6))
    }

    /// The encoding of the fields from `reduce_flashing` to `gamepad_mode`.
    pub open spec fn spec_enc_group_2(v: SettingsModel) -> Seq<u8> {
        <bool as Encode<'a>>::spec_enc(v.reduce_flashing) + (<bool as Encode<'a>>::spec_enc(v.telemetry) + (<bool as Encode<'a>>::spec_enc(v.gamepad_mode)))
    }

    /// What decoding the fields from `reduce_flashing` to `gamepad_mode` makes of the front of `s`.
    pub open spec fn spec_parse_group_2(s: Seq<u8>) -> Result<((bool, bool, bool), nat), DecodeError> {
        match <bool as Encode<'a>>::spec_parse(s) {
            Err(e) => Err(e),
            Ok((reduce_flashing, n0)) => {
                let s1 = s.skip(n0 as int);
                match <bool as Encode<'a>>::spec_parse(s1) {
                    Err(e) => Err(e),
                    Ok((telemetry, n1)) => {
                        let s2 = s1.skip(n1 as int);
                        match <bool as Encode<'a>>::spec_parse(s2) {
                            Err(e) => Err(e),
                            Ok((gamepad_mode, n2)) => {
                                Ok(((reduce_flashing, telemetry, gamepad_mode), n0 + n1 + n2))
                            },
                        }
                    },
                }
            },
        }
    }

    #[verifier::rlimit(40)]
    proof fn lemma_group_2(x: Settings, rest: Seq<u8>)
        requires
            Self::spec_enc_group_2(x.deep_view()).len() <= usize::MAX,
        ensures
            Self::spec_parse_group_2(Self::spec_enc_group_2(x.deep_view()) + rest) == Ok::<
                ((bool, bool, bool), nat),
                DecodeError,
            >(((x.deep_view().reduce_flashing, x.deep_view().telemetry, x.deep_view().gamepad_mode), Self::spec_enc_group_2(x.deep_view()).len())),
            Self::spec_enc_group_2(x.deep_view()).len() >= 1,
    {
        let v = x.deep_view();
        let e0 = <bool as Encode<'a>>::spec_enc(v.reduce_flashing);
        let e1 = <bool as Encode<'a>>::spec_enc(v.telemetry);
        let e2 = <bool as Encode<'a>>::spec_enc(v.gamepad_mode);
        let x2 = e2;
        let x1 = e1 + x2;
        lemma_split_step(e0, x1, rest);
        <bool as Encode<'a>>::lemma_round_trip(x.reduce_flashing, x1 + rest);
        lemma_split_step(e1, x2, rest);
        <bool as Encode<'a>>::lemma_round_trip(x.telemetry, x2 + rest);
        <bool as Encode<'a>>::lemma_round_trip(x.gamepad_mode, rest);
    }

    #[verifier::rlimit(40)]
    fn size_group_2(&self) -> (r: usize)
        requires
            Self::spec_enc_group_2(self.deep_view()).len() <= usize::MAX,
        ensures
            r == Self::spec_enc_group_2(self.deep_view()).len(),
    {
        let n0 = self.reduce_flashing.size();
        let n1 = self.telemetry.size();
        let n2 = self.gamepad_mode.size();
        n0 + n1 + n2
    }

    #[verifier::rlimit(40)]
    fn encode_group_2(&self, buf: &mut [u8], pos: usize) -> (r: Result<usize, EncodeError>)
        requires
            pos <= old(buf)@.len(),
        ensures
            wrote_to(old(buf)@, final(buf)@, pos as int, Self::spec_enc_group_2(self.deep_view()), r),
    {
        let ghost v = self.deep_view();
        let ghost b0 = buf@;
        let p1 = self.reduce_flashing.encode_at(buf, pos)?;
        let ghost b1 = buf@;
        let p2 = self.telemetry.encode_at(buf, p1)?;
        let ghost b2 = buf@;
        let p3 = self.gamepad_mode.encode_at(buf, p2)?;
        let ghost b3 = buf@;
        proof {
            let e0 = <bool as Encode<'a>>::spec_enc(v.reduce_flashing);
            let e1 = <bool as Encode<'a>>::spec_enc(v.telemetry);
            let e2 = <bool as Encode<'a>>::spec_enc(v.gamepad_mode);
            let x2 = e2;
            let x1 = e1 + x2;
            lemma_wrote_then(b1, b2, b3, p1 as int, e1, x2, p2, p3);
            lemma_wrote_then(b0, b1, b3, pos as int, e0, x1, p1, p3);
        }
        Ok(p3)
    }

    #[verifier::rlimit(40)]
    fn decode_group_2(buf: &'a [u8], pos: usize) -> (r: Result<((bool, bool, bool), usize), DecodeError>)
        requires
            pos <= buf@.len(),
        ensures
            match r {
                Ok((t, end)) => pos <= end <= buf@.len() && Self::spec_parse_group_2(buf@.skip(pos as int))
                    == Ok::<((bool, bool, bool), nat), DecodeError>((t.deep_view(), (end - pos) as nat)),
                Err(e) => Self::spec_parse_group_2(buf@.skip(pos as int)) == Err::<((bool, bool, bool), nat), DecodeError>(e),
            },
    {
        let (reduce_flashing, p1) = <bool as Encode<'a>>::decode_at(buf, pos)?;
        proof {
            lemma_skip_skip(buf@, pos as int, p1 as int);
        }
        let (telemetry, p2) = <bool as Encode<'a>>::decode_at(buf, p1)?;
        proof {
            lemma_skip_skip(buf@, p1 as int, p2 as int);
        }
        let (gamepad_mode, p3) = <bool as Encode<'a>>::decode_at(buf, p2)?;
        proof {
            lemma_skip_skip(buf@, p2 as int, p3 as int);
        }
        Ok(((reduce_flashing, telemetry, gamepad_mode), p3))
    }

    /// The encoding of the fields from `contrast` to `extra_flags`.
    pub open spec fn spec_enc_group_3(v: SettingsModel) -> Seq<u8> {
        <bool as Encode<'a>>::spec_enc(v.contrast) + (<bool as Encode<'a>>::spec_enc(v.easter_eggs) + (<u32 as Encode<'a>>::spec_enc(v.extra_flags)))
    }

    /// What decoding the fields from `contrast` to `extra_flags` makes of the front of `s`.
    pub open spec fn spec_parse_group_3(s: Seq<u8>) -> Result<((bool, bool, u32), nat), DecodeError> {
        match <bool as Encode<'a>>::spec_parse(s) {
            Err(e) => Err(e),
            Ok((contrast, n0)) => {
                let s1 = s.skip(n0 as int);
                match <bool as Encode<'a>>::spec_parse(s1) {
                    Err(e) => Err(e),
                    Ok((easter_eggs, n1)) => {
                        let s2 = s1.skip(n1 as int);
                        match <u32 as Encode<'a>>::spec_parse(s2) {
                            Err(e) => Err(e),
                            Ok((extra_flags, n2)) => {
                                Ok(((contrast, easter_eggs, extra_flags), n0 + n1 + n2))
                            },
                        }
                    },
                }
            },
        }
    }

    #[verifier::rlimit(40)]
    proof fn lemma_group_3(x: Settings, rest: Seq<u8>)
        requires
            Self::spec_enc_group_3(x.deep_view()).len() <= usize::MAX,
        ensures
            Self::spec_parse_group_3(Self::spec_enc_group_3(x.deep_view()) + rest) == Ok::<
                ((bool, bool, u32), nat),
                DecodeError,
            >(((x.deep_view().contrast, x.deep_view().easter_eggs, x.deep_view().extra_flags), Self::spec_enc_group_3(x.deep_view()).len())),
            Self::spec_enc_group_3(x.deep_view()).len() >= 1,
    {
        let v = x.deep_view();
        let e0 = <bool as Encode<'a>>::spec_enc(v.contrast);
        let e1 = <bool as Encode<'a>>::spec_enc(v.easter_eggs);
        let e2 = <u32 as Encode<'a>>::spec_enc(v.extra_flags);
        let x2 = e2;
        let x1 = e1 + x2;
        lemma_split_step(e0, x1, rest);
        <bool as Encode<'a>>::lemma_round_trip(x.contrast, x1 + rest);
        lemma_split_step(e1, x2, rest);
        <bool as Encode<'a>>::lemma_round_trip(x.easter_eggs, x2 + rest);
        <u32 as Encode<'a>>::lemma_round_trip(x.extra_flags, rest);
    }

    #[verifier::rlimit(40)]
    fn size_group_3(&self) -> (r: usize)
        requires
            Self::spec_enc_group_3(self.deep_view()).len() <= usize::MAX,
        ensures
            r == Self::spec_enc_group_3(self.deep_view()).len(),
    {
        let n0 = self.contrast.size();
        let n1 = self.easter_eggs.size();
        let n2 = self.extra_flags.size();
        n0 + n1 + n2
    }

    #[verifier::rlimit(40)]
    fn encode_group_3(&self, buf: &mut [u8], pos: usize) -> (r: Result<usize, EncodeError>)
        requires
            pos <= old(buf)@.len(),
        ensures
            wrote_to(old(buf)@, final(buf)@, pos as int, Self::spec_enc_group_3(self.deep_view()), r),
    {
        let ghost v = self.deep_view();
        let ghost b0 = buf@;
        let p1 = self.contrast.encode_at(buf, pos)?;
        let ghost b1 = buf@;
        let p2 = self.easter_eggs.encode_at(buf, p1)?;
        let ghost b2 = buf@;
        let p3 = self.extra_flags.encode_at(buf, p2)?;
        let ghost b3 = buf@;
        proof {
            let e0 = <bool as Encode<'a>>::spec_enc(v.contrast);
            let e1 = <bool as Encode<'a>>::spec_enc(v.easter_eggs);
            let e2 = <u32 as Encode<'a>>::spec_enc(v.extra_flags);
            let x2 = e2;
            let x1 = e1 + x2;
            lemma_wrote_then(b1, b2, b3, p1 as int, e1, x2, p2, p3);
            lemma_wrote_then(b0, b1, b3, pos as int, e0, x1, p1, p3);
        }
        Ok(p3)
    }

    #[verifier::rlimit(40)]
    fn decode_group_3(buf: &'a [u8], pos: usize) -> (r: Result<((bool, bool, u32), usize), DecodeError>)
        requires
            pos <= buf@.len(),
        ensures
            match r {
                Ok((t, end)) => pos <= end <= buf@.len() && Self::spec_parse_group_3(buf@.skip(pos as int))
                    == Ok::<((bool, bool, u32), nat), DecodeError>((t.deep_view(), (end - pos) as nat)),
                Err(e) => Self::spec_parse_group_3(buf@.skip(pos as int)) == Err::<((bool, bool, u32), nat), DecodeError>(e),
            },
    {
        let (contrast, p1) = <bool as Encode<'a>>::decode_at(buf, pos)?;
        proof {
            lemma_skip_skip(buf@, pos as int, p1 as int);
        }
        let (easter_eggs, p2) = <bool as Encode<'a>>::decode_at(buf, p1)?;
        proof {
            lemma_skip_skip(buf@, p1 as int, p2 as int);
        }
        let (extra_flags, p3) = <u32 as Encode<'a>>::decode_at(buf, p2)?;
        proof {
            lemma_skip_skip(buf@, p2 as int, p3 as int);
        }
        Ok(((contrast, easter_eggs, extra_flags), p3))
    }
}

impl<'a> Encode<'a> for Settings {
    open spec fn spec_enc(v: SettingsModel) -> Seq<u8> {
        Self::spec_enc_group_0(v) + (Self::spec_enc_group_1(v) + (Self::spec_enc_group_2(v) + (Self::spec_enc_group_3(v))))
    }

    open spec fn spec_parse(s: Seq<u8>) -> Result<(SettingsModel, nat), DecodeError> {
        match Self::spec_parse_group_0(s) {
            Err(e) => Err(e),
            Ok((g0, n0)) => {
                let s1 = s.skip(n0 as int);
                match Self::spec_parse_group_1(s1) {
                    Err(e) => Err(e),
                    Ok((g1, n1)) => {
                        let s2 = s1.skip(n1 as int);
                        match Self::spec_parse_group_2(s2) {
                            Err(e) => Err(e),
                            Ok((g2, n2)) => {
                                let s3 = s2.skip(n2 as int);
                                match Self::spec_parse_group_3(s3) {
                                    Err(e) => Err(e),
                                    Ok((g3, n3)) => {
                                        Ok((SettingsModel { xp: g0.0, badges: g0.1, lang: g0.2, name: g0.3, timezone: g0.4, rotate_screen: g0.5, screen_brightness: g0.6, leds_brightness: g1.0, speakers_volume: g1.1, headphones_volume: g1.2, font_size: g1.3, theme: g1.4, auto_lock: g1.5, reduce_flashing: g2.0, telemetry: g2.1, gamepad_mode: g2.2, contrast: g3.0, easter_eggs: g3.1, extra_flags: g3.2 }, n0 + n1 + n2 + n3))
                                    },
                                }
                            },
                        }
                    },
                }
            },
        }
    }

    proof fn lemma_round_trip(x: Settings, rest: Seq<u8>) {
        let v = x.deep_view();
        let e0 = Self::spec_enc_group_0(v);
        let e1 = Self::spec_enc_group_1(v);
        let e2 = Self::spec_enc_group_2(v);
        let e3 = Self::spec_enc_group_3(v);
        let x3 = e3;
        let x2 = e2 + x3;
        let x1 = e1 + x2;
        let x0 = e0 + x1;
        lemma_split_step(e0, x1, rest);
        Self::lemma_group_0(x, x1 + rest);
        lemma_split_step(e1, x2, rest);
        Self::lemma_group_1(x, x2 + rest);
        lemma_split_step(e2, x3, rest);
        Self::lemma_group_2(x, x3 + rest);
        Self::lemma_group_3(x, rest);
    }

    proof fn lemma_prefix_truncated(x: Settings, k: int) {
        let v = x.deep_view();
        let e0 = Self::spec_enc_group_0(v);
        let e1 = Self::spec_enc_group_1(v);
        let e2 = Self::spec_enc_group_2(v);
        let e3 = Self::spec_enc_group_3(v);
        let x3 = e3;
        let x2 = e2 + x3;
        let x1 = e1 + x2;
        let x0 = e0 + x1;
        lemma_take_split(e0, x1, k);
        if k < e0.len() {
            Self::lemma_group_prefix_0(x, k);
        } else {
            let k1 = k - e0.len();
            Self::lemma_group_0(x, x1.take(k1));
            lemma_take_split(e1, x2, k1);
            if k1 < e1.len() {
                Self::lemma_group_prefix_1(x, k1);
            } else {
                let k2 = k1 - e1.len();
                Self::lemma_group_1(x, x2.take(k2));
                lemma_take_split(e2, x3, k2);
                if k2 < e2.len() {
                    Self::lemma_group_prefix_2(x, k2);
                } else {
                    let k3 = k2 - e2.len();
                    Self::lemma_group_2(x, x3.take(k3));
                    Self::lemma_group_prefix_3(x, k3);
                }
            }
        }
    }

    fn size(&self) -> (r: usize) {
        let n0 = self.size_group_0();
        let n1 = self.size_group_1();
        let n2 = self.size_group_2();
        let n3 = self.size_group_3();
        n0 + n1 + n2 + n3
    }

    fn encode_at(&self, buf: &mut [u8], pos: usize) -> (r: Result<usize, EncodeError>) {
        let ghost v = self.deep_view();
        let ghost b0 = buf@;
        let p1 = self.encode_group_0(buf, pos)?;
        let ghost b1 = buf@;
        let p2 = self.encode_group_1(buf, p1)?;
        let ghost b2 = buf@;
        let p3 = self.encode_group_2(buf, p2)?;
        let ghost b3 = buf@;
        let p4 = self.encode_group_3(buf, p3)?;
        let ghost b4 = buf@;
        proof {
            let e0 = Self::spec_enc_group_0(v);
            let e1 = Self::spec_enc_group_1(v);
            let e2 = Self::spec_enc_group_2(v);
            let e3 = Self::spec_enc_group_3(v);
            let x3 = e3;
            let x2 = e2 + x3;
            lemma_wrote_then(b2, b3, b4, p2 as int, e2, x3, p3, p4);
            let x1 = e1 + x2;
            lemma_wrote_then(b1, b2, b4, p1 as int, e1, x2, p2, p4);
            lemma_wrote_then(b0, b1, b4, pos as int, e0, x1, p1, p4);
        }
        Ok(p4)
    }

    fn decode_at(buf: &'a [u8], pos: usize) -> (r: Result<(Self, usize), DecodeError>) {
        let ((xp, badges, lang, name, timezone, rotate_screen, screen_brightness), p1) = Self::decode_group_0(buf, pos)?;
        proof {
            lemma_skip_skip(buf@, pos as int, p1 as int);
        }
        let ((leds_brightness, speakers_volume, headphones_volume, font_size, theme, auto_lock), p2) = Self::decode_group_1(buf, p1)?;
        proof {
            lemma_skip_skip(buf@, p1 as int, p2 as int);
        }
        let ((reduce_flashing, telemetry, gamepad_mode), p3) = Self::decode_group_2(buf, p2)?;
        proof {
            lemma_skip_skip(buf@, p2 as int, p3 as int);
        }
        let ((contrast, easter_eggs, extra_flags), p4) = Self::decode_group_3(buf, p3)?;
        proof {
            lemma_skip_skip(buf@, p3 as int, p4 as int);
        }
        Ok((Settings { xp, badges, lang, name, timezone, rotate_screen, screen_brightness, leds_brightness, speakers_volume, headphones_volume, font_size, theme, auto_lock, reduce_flashing, telemetry, gamepad_mode, contrast, easter_eggs, extra_flags }, p4))
    }
}

} // verus!
