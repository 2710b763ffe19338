//! Per-player play statistics of an app.

use vstd::prelude::*;
use crate::wire::{
    lemma_skip_skip, lemma_split_step, lemma_take_split, lemma_wrote_then, DecodeError, Encode,
    EncodeError,
};

verus! {

/// Player-specific app stats, like playtime.
#[derive(Debug, PartialEq, Eq)]
pub struct Stats {
    /// How many minutes the app was played for every player count from 1
    /// to 4+. Games with more than 4 players count as 4 players, so the last
    /// index (3) is "4+ players".
    ///
    /// The play time is counted from calls to the `update` callback, so it is
    /// an approximation. Plays shorter than a minute are not recorded.
    pub minutes: [u32; 4],
    /// The longest single play, in minutes, for every player count from 1
    /// to 4+.
    ///
    /// A play paused for days may count as one, so use this with care.
    pub longest_play: [u32; 4],
    /// How many times the app was launched for every player count from 1
    /// to 4+.
    pub launches: [u32; 4],
    /// The date when the app was installed: year, month, and day of month.
    pub installed_on: (u16, u8, u8),
    /// The date when the app was updated: year, month, and day of month.
    pub updated_on: (u16, u8, u8),
    /// The date when the app was last launched: year, month, and day of
    /// month.
    pub launched_on: (u16, u8, u8),
    /// How much XP the player has earned in the app. At most 1000.
    pub xp: u16,
    /// The progress towards each badge, one entry for each badge of the app.
    pub badges: Vec<BadgeProgress>,
}

impl Clone for Stats {
    fn clone(&self) -> (r: Self) {
        Stats {
            minutes: self.minutes,
            longest_play: self.longest_play,
            launches: self.launches,
            installed_on: self.installed_on,
            updated_on: self.updated_on,
            launched_on: self.launched_on,
            xp: self.xp,
            badges: self.badges.clone(),
        }
    }
}

#[derive(Clone, Copy, Debug, PartialEq, Eq, Structural)]
pub struct BadgeProgress {
    /// If true, the earning of the badge hasn't been shown to the player yet.
    pub new: bool,
    /// How many points are already earned for the badge.
    pub done: u16,
    /// How many points are needed to earn the badge.
    pub goal: u16,
}

impl BadgeProgress {
    /// If the badge has been earned by the player.
    #[must_use]
    pub fn earned(&self) -> (r: bool)
        ensures
            r == (self.done >= self.goal),
    {
        self.done >= self.goal
    }
}

/// The model of a [`Stats`].
pub ghost struct StatsModel {
    pub minutes: Seq<u32>,
    pub longest_play: Seq<u32>,
    pub launches: Seq<u32>,
    pub installed_on: (u16, u8, u8),
    pub updated_on: (u16, u8, u8),
    pub launched_on: (u16, u8, u8),
    pub xp: u16,
    pub badges: Seq<BadgeProgressModel>,
}

impl DeepView for Stats {
    type V = StatsModel;

    open spec fn deep_view(&self) -> StatsModel {
        StatsModel {
            minutes: self.minutes.deep_view(),
            longest_play: self.longest_play.deep_view(),
            launches: self.launches.deep_view(),
            installed_on: self.installed_on,
            updated_on: self.updated_on,
            launched_on: self.launched_on,
            xp: self.xp,
            badges: self.badges.deep_view(),
        }
    }
}

impl<'a> Encode<'a> for Stats {
    open spec fn spec_enc(v: StatsModel) -> Seq<u8> {
        <[u32; 4] as Encode<'a>>::spec_enc(v.minutes)
            + (<[u32; 4] as Encode<'a>>::spec_enc(v.longest_play)
            + (<[u32; 4] as Encode<'a>>::spec_enc(v.launches)
            + (<(u16, u8, u8) as Encode<'a>>::spec_enc(v.installed_on)
            + (<(u16, u8, u8) as Encode<'a>>::spec_enc(v.updated_on)
            + (<(u16, u8, u8) as Encode<'a>>::spec_enc(v.launched_on)
            + (<u16 as Encode<'a>>::spec_enc(v.xp)
            + <Vec<BadgeProgress> as Encode<'a>>::spec_enc(v.badges)))))))
    }

    open spec fn spec_parse(s: Seq<u8>) -> Result<(StatsModel, nat), DecodeError> {
        match <[u32; 4] as Encode<'a>>::spec_parse(s) {
            Err(e) => Err(e),
            Ok((minutes, n0)) => {
                let s1 = s.skip(n0 as int);
                match <[u32; 4] as Encode<'a>>::spec_parse(s1) {
                    Err(e) => Err(e),
                    Ok((longest_play, n1)) => {
                        let s2 = s1.skip(n1 as int);
                        match <[u32; 4] as Encode<'a>>::spec_parse(s2) {
                            Err(e) => Err(e),
                            Ok((launches, n2)) => {
                                let s3 = s2.skip(n2 as int);
                                match <(u16, u8, u8) as Encode<'a>>::spec_parse(s3) {
                                    Err(e) => Err(e),
                                    Ok((installed_on, n3)) => {
                                        let s4 = s3.skip(n3 as int);
                                        match <(u16, u8, u8) as Encode<'a>>::spec_parse(s4) {
                                            Err(e) => Err(e),
                                            Ok((updated_on, n4)) => {
                                                let s5 = s4.skip(n4 as int);
                                                match <(u16, u8, u8) as Encode<'a>>::spec_parse(s5) {
                                                    Err(e) => Err(e),
                                                    Ok((launched_on, n5)) => {
                                                        let s6 = s5.skip(n5 as int);
                                                        match <u16 as Encode<'a>>::spec_parse(s6) {
                                                            Err(e) => Err(e),
                                                            Ok((xp, n6)) => {
                                                                let s7 = s6.skip(n6 as int);
                                                                match <Vec<BadgeProgress> as Encode<'a>>::spec_parse(s7) {
                                                                    Err(e) => Err(e),
                                                                    Ok((badges, n7)) => {
                                                                        Ok((StatsModel { minutes, longest_play, launches, installed_on, updated_on, launched_on, xp, badges }, n0 + n1 + n2 + n3 + n4 + n5 + n6 + n7))
                                                                    },
                                                                }
                                                            },
                                                        }
                                                    },
                                                }
                                            },
                                        }
                                    },
                                }
                            },
                        }
                    },
                }
            },
        }
    }

    #[verifier::rlimit(30)]
    proof fn lemma_round_trip(x: Stats, rest: Seq<u8>) {
        let v = x.deep_view();
        let e0 = <[u32; 4] as Encode<'a>>::spec_enc(v.minutes);
        let e1 = <[u32; 4] as Encode<'a>>::spec_enc(v.longest_play);
        let e2 = <[u32; 4] as Encode<'a>>::spec_enc(v.launches);
        let e3 = <(u16, u8, u8) as Encode<'a>>::spec_enc(v.installed_on);
        let e4 = <(u16, u8, u8) as Encode<'a>>::spec_enc(v.updated_on);
        let e5 = <(u16, u8, u8) as Encode<'a>>::spec_enc(v.launched_on);
        let e6 = <u16 as Encode<'a>>::spec_enc(v.xp);
        let e7 = <Vec<BadgeProgress> as Encode<'a>>::spec_enc(v.badges);
        let x7 = e7;
        let x6 = e6 + x7;
        let x5 = e5 + x6;
        let x4 = e4 + x5;
        let x3 = e3 + x4;
        let x2 = e2 + x3;
        let x1 = e1 + x2;
        lemma_split_step(e0, x1, rest);
        <[u32; 4] as Encode<'a>>::lemma_round_trip(x.minutes, x1 + rest);
        lemma_split_step(e1, x2, rest);
        <[u32; 4] as Encode<'a>>::lemma_round_trip(x.longest_play, x2 + rest);
        lemma_split_step(e2, x3, rest);
        <[u32; 4] as Encode<'a>>::lemma_round_trip(x.launches, x3 + rest);
        lemma_split_step(e3, x4, rest);
        <(u16, u8, u8) as Encode<'a>>::lemma_round_trip(x.installed_on, x4 + rest);
        lemma_split_step(e4, x5, rest);
        <(u16, u8, u8) as Encode<'a>>::lemma_round_trip(x.updated_on, x5 + rest);
        lemma_split_step(e5, x6, rest);
        <(u16, u8, u8) as Encode<'a>>::lemma_round_trip(x.launched_on, x6 + rest);
        lemma_split_step(e6, x7, rest);
        <u16 as Encode<'a>>::lemma_round_trip(x.xp, x7 + rest);
        <Vec<BadgeProgress> as Encode<'a>>::lemma_round_trip(x.badges, rest);
    }

    #[verifier::rlimit(30)]
    proof fn lemma_prefix_truncated(x: Stats, k: int) {
        let v = x.deep_view();
        let e0 = <[u32; 4] as Encode<'a>>::spec_enc(v.minutes);
        let e1 = <[u32; 4] as Encode<'a>>::spec_enc(v.longest_play);
        let e2 = <[u32; 4] as Encode<'a>>::spec_enc(v.launches);
        let e3 = <(u16, u8, u8) as Encode<'a>>::spec_enc(v.installed_on);
        let e4 = <(u16, u8, u8) as Encode<'a>>::spec_enc(v.updated_on);
        let e5 = <(u16, u8, u8) as Encode<'a>>::spec_enc(v.launched_on);
        let e6 = <u16 as Encode<'a>>::spec_enc(v.xp);
        let e7 = <Vec<BadgeProgress> as Encode<'a>>::spec_enc(v.badges);
        let x7 = e7;
        let x6 = e6 + x7;
        let x5 = e5 + x6;
        let x4 = e4 + x5;
        let x3 = e3 + x4;
        let x2 = e2 + x3;
        let x1 = e1 + x2;
        let x0 = e0 + x1;
        lemma_take_split(e0, x1, k);
        if k < e0.len() {
            <[u32; 4] as Encode<'a>>::lemma_prefix_truncated(x.minutes, k);
        } else {
            let k1 = k - e0.len();
            <[u32; 4] as Encode<'a>>::lemma_round_trip(x.minutes, x1.take(k1));
            lemma_take_split(e1, x2, k1);
            if k1 < e1.len() {
                <[u32; 4] as Encode<'a>>::lemma_prefix_truncated(x.longest_play, k1);
            } else {
                let k2 = k1 - e1.len();
                <[u32; 4] as Encode<'a>>::lemma_round_trip(x.longest_play, x2.take(k2));
                lemma_take_split(e2, x3, k2);
                if k2 < e2.len() {
                    <[u32; 4] as Encode<'a>>::lemma_prefix_truncated(x.launches, k2);
                } else {
                    let k3 = k2 - e2.len();
                    <[u32; 4] as Encode<'a>>::lemma_round_trip(x.launches, x3.take(k3));
                    lemma_take_split(e3, x4, k3);
                    if k3 < e3.len() {
                        <(u16, u8, u8) as Encode<'a>>::lemma_prefix_truncated(x.installed_on, k3);
                    } else {
                        let k4 = k3 - e3.len();
                        <(u16, u8, u8) as Encode<'a>>::lemma_round_trip(x.installed_on, x4.take(k4));
                        lemma_take_split(e4, x5, k4);
                        if k4 < e4.len() {
                            <(u16, u8, u8) as Encode<'a>>::lemma_prefix_truncated(x.updated_on, k4);
                        } else {
                            let k5 = k4 - e4.len();
                            <(u16, u8, u8) as Encode<'a>>::lemma_round_trip(x.updated_on, x5.take(k5));
                            lemma_take_split(e5, x6, k5);
                            if k5 < e5.len() {
                                <(u16, u8, u8) as Encode<'a>>::lemma_prefix_truncated(x.launched_on, k5);
                            } else {
                                let k6 = k5 - e5.len();
                                <(u16, u8, u8) as Encode<'a>>::lemma_round_trip(x.launched_on, x6.take(k6));
                                lemma_take_split(e6, x7, k6);
                                if k6 < e6.len() {
                                    <u16 as Encode<'a>>::lemma_prefix_truncated(x.xp, k6);
                                } else {
                                    let k7 = k6 - e6.len();
                                    <u16 as Encode<'a>>::lemma_round_trip(x.xp, x7.take(k7));
                                    <Vec<BadgeProgress> as Encode<'a>>::lemma_prefix_truncated(x.badges, k7);
                                }
                            }
                        }
                    }
                }
            }
        }
    }

    #[verifier::rlimit(30)]
    fn size(&self) -> (r: usize) {
        let n0 = self.minutes.size();
        let n1 = self.longest_play.size();
        let n2 = self.launches.size();
        let n3 = self.installed_on.size();
        let n4 = self.updated_on.size();
        let n5 = self.launched_on.size();
        let n6 = self.xp.size();
        let n7 = self.badges.size();
        n0 + n1 + n2 + n3 + n4 + n5 + n6 + n7
    }

    #[verifier::rlimit(30)]
    fn encode_at(&self, buf: &mut [u8], pos: usize) -> (r: Result<usize, EncodeError>) {
        let ghost v = self.deep_view();
        let ghost b0 = buf@;
        let p1 = self.minutes.encode_at(buf, pos)?;
        let ghost b1 = buf@;
        let p2 = self.longest_play.encode_at(buf, p1)?;
        let ghost b2 = buf@;
        let p3 = self.launches.encode_at(buf, p2)?;
        let ghost b3 = buf@;
        let p4 = self.installed_on.encode_at(buf, p3)?;
        let ghost b4 = buf@;
        let p5 = self.updated_on.encode_at(buf, p4)?;
        let ghost b5 = buf@;
        let p6 = self.launched_on.encode_at(buf, p5)?;
        let ghost b6 = buf@;
        let p7 = self.xp.encode_at(buf, p6)?;
        let ghost b7 = buf@;
        let p8 = self.badges.encode_at(buf, p7)?;
        let ghost b8 = buf@;
        proof {
            let e0 = <[u32; 4] as Encode<'a>>::spec_enc(v.minutes);
            let e1 = <[u32; 4] as Encode<'a>>::spec_enc(v.longest_play);
            let e2 = <[u32; 4] as Encode<'a>>::spec_enc(v.launches);
            let e3 = <(u16, u8, u8) as Encode<'a>>::spec_enc(v.installed_on);
            let e4 = <(u16, u8, u8) as Encode<'a>>::spec_enc(v.updated_on);
            let e5 = <(u16, u8, u8) as Encode<'a>>::spec_enc(v.launched_on);
            let e6 = <u16 as Encode<'a>>::spec_enc(v.xp);
            let e7 = <Vec<BadgeProgress> as Encode<'a>>::spec_enc(v.badges);
            let x7 = e7;
            let x6 = e6 + x7;
            lemma_wrote_then(b6, b7, b8, p6 as int, e6, x7, p7, p8);
            let x5 = e5 + x6;
            lemma_wrote_then(b5, b6, b8, p5 as int, e5, x6, p6, p8);
            let x4 = e4 + x5;
            lemma_wrote_then(b4, b5, b8, p4 as int, e4, x5, p5, p8);
            let x3 = e3 + x4;
            lemma_wrote_then(b3, b4, b8, p3 as int, e3, x4, p4, p8);
            let x2 = e2 + x3;
            lemma_wrote_then(b2, b3, b8, p2 as int, e2, x3, p3, p8);
            let x1 = e1 + x2;
            lemma_wrote_then(b1, b2, b8, p1 as int, e1, x2, p2, p8);
            lemma_wrote_then(b0, b1, b8, pos as int, e0, x1, p1, p8);
        }
        Ok(p8)
    }

    #[verifier::rlimit(30)]
    fn decode_at(buf: &'a [u8], pos: usize) -> (r: Result<(Self, usize), DecodeError>) {
        let (minutes, p1) = <[u32; 4] as Encode<'a>>::decode_at(buf, pos)?;
        proof {
            lemma_skip_skip(buf@, pos as int, p1 as int);
        }
        let (longest_play, p2) = <[u32; 4] as Encode<'a>>::decode_at(buf, p1)?;
        proof {
            lemma_skip_skip(buf@, p1 as int, p2 as int);
        }
        let (launches, p3) = <[u32; 4] as Encode<'a>>::decode_at(buf, p2)?;
        proof {
            lemma_skip_skip(buf@, p2 as int, p3 as int);
        }
        let (installed_on, p4) = <(u16, u8, u8) as Encode<'a>>::decode_at(buf, p3)?;
        proof {
            lemma_skip_skip(buf@, p3 as int, p4 as int);
        }
        let (updated_on, p5) = <(u16, u8, u8) as Encode<'a>>::decode_at(buf, p4)?;
        proof {
            lemma_skip_skip(buf@, p4 as int, p5 as int);
        }
        let (launched_on, p6) = <(u16, u8, u8) as Encode<'a>>::decode_at(buf, p5)?;
        proof {
            lemma_skip_skip(buf@, p5 as int, p6 as int);
        }
        let (xp, p7) = <u16 as Encode<'a>>::decode_at(buf, p6)?;
        proof {
            lemma_skip_skip(buf@, p6 as int, p7 as int);
        }
        let (badges, p8) = <Vec<BadgeProgress> as Encode<'a>>::decode_at(buf, p7)?;
        proof {
            lemma_skip_skip(buf@, p7 as int, p8 as int);
        }
        Ok((Stats { minutes, longest_play, launches, installed_on, updated_on, launched_on, xp, badges }, p8))
    }
}

/// The model of a [`BadgeProgress`].
pub ghost struct BadgeProgressModel {
    pub new: bool,
    pub done: u16,
    pub goal: u16,
}

impl DeepView for BadgeProgress {
    type V = BadgeProgressModel;

    open spec fn deep_view(&self) -> BadgeProgressModel {
        BadgeProgressModel {
            new: self.new,
            done: self.done,
            goal: self.goal,
        }
    }
}

impl<'a> Encode<'a> for BadgeProgress {
    open spec fn spec_enc(v: BadgeProgressModel) -> Seq<u8> {
        <bool as Encode<'a>>::spec_enc(v.new)
            + (<u16 as Encode<'a>>::spec_enc(v.done)
            + <u16 as Encode<'a>>::spec_enc(v.goal))
    }

    open spec fn spec_parse(s: Seq<u8>) -> Result<(BadgeProgressModel, nat), DecodeError> {
        match <bool as Encode<'a>>::spec_parse(s) {
            Err(e) => Err(e),
            Ok((new, n0)) => {
                let s1 = s.skip(n0 as int);
                match <u16 as Encode<'a>>::spec_parse(s1) {
                    Err(e) => Err(e),
                    Ok((done, n1)) => {
                        let s2 = s1.skip(n1 as int);
                        match <u16 as Encode<'a>>::spec_parse(s2) {
                            Err(e) => Err(e),
                            Ok((goal, n2)) => {
                                Ok((BadgeProgressModel { new, done, goal }, n0 + n1 + n2))
                            },
                        }
                    },
                }
            },
        }
    }

    proof fn lemma_round_trip(x: BadgeProgress, rest: Seq<u8>) {
        let v = x.deep_view();
        let e0 = <bool as Encode<'a>>::spec_enc(v.new);
        let e1 = <u16 as Encode<'a>>::spec_enc(v.done);
        let e2 = <u16 as Encode<'a>>::spec_enc(v.goal);
        let x2 = e2;
        let x1 = e1 + x2;
        lemma_split_step(e0, x1, rest);
        <bool as Encode<'a>>::lemma_round_trip(x.new, x1 + rest);
        lemma_split_step(e1, x2, rest);
        <u16 as Encode<'a>>::lemma_round_trip(x.done, x2 + rest);
        <u16 as Encode<'a>>::lemma_round_trip(x.goal, rest);
    }

    proof fn lemma_prefix_truncated(x: BadgeProgress, k: int) {
        let v = x.deep_view();
        let e0 = <bool as Encode<'a>>::spec_enc(v.new);
        let e1 = <u16 as Encode<'a>>::spec_enc(v.done);
        let e2 = <u16 as Encode<'a>>::spec_enc(v.goal);
        let x2 = e2;
        let x1 = e1 + x2;
        let x0 = e0 + x1;
        lemma_take_split(e0, x1, k);
        if k < e0.len() {
            <bool as Encode<'a>>::lemma_prefix_truncated(x.new, k);
        } else {
            let k1 = k - e0.len();
            <bool as Encode<'a>>::lemma_round_trip(x.new, x1.take(k1));
            lemma_take_split(e1, x2, k1);
            if k1 < e1.len() {
                <u16 as Encode<'a>>::lemma_prefix_truncated(x.done, k1);
            } else {
                let k2 = k1 - e1.len();
                <u16 as Encode<'a>>::lemma_round_trip(x.done, x2.take(k2));
                <u16 as Encode<'a>>::lemma_prefix_truncated(x.goal, k2);
            }
        }
    }

    fn size(&self) -> (r: usize) {
        let n0 = self.new.size();
        let n1 = self.done.size();
        let n2 = self.goal.size();
        n0 + n1 + n2
    }

    fn encode_at(&self, buf: &mut [u8], pos: usize) -> (r: Result<usize, EncodeError>) {
        let ghost v = self.deep_view();
        let ghost b0 = buf@;
        let p1 = self.new.encode_at(buf, pos)?;
        let ghost b1 = buf@;
        let p2 = self.done.encode_at(buf, p1)?;
        let ghost b2 = buf@;
        let p3 = self.goal.encode_at(buf, p2)?;
        let ghost b3 = buf@;
        proof {
            let e0 = <bool as Encode<'a>>::spec_enc(v.new);
            let e1 = <u16 as Encode<'a>>::spec_enc(v.done);
            let e2 = <u16 as Encode<'a>>::spec_enc(v.goal);
            let x2 = e2;
            let x1 = e1 + x2;
            lemma_wrote_then(b1, b2, b3, p1 as int, e1, x2, p2, p3);
            lemma_wrote_then(b0, b1, b3, pos as int, e0, x1, p1, p3);
        }
        Ok(p3)
    }

    fn decode_at(buf: &'a [u8], pos: usize) -> (r: Result<(Self, usize), DecodeError>) {
        let (new, p1) = <bool as Encode<'a>>::decode_at(buf, pos)?;
        proof {
            lemma_skip_skip(buf@, pos as int, p1 as int);
        }
        let (done, p2) = <u16 as Encode<'a>>::decode_at(buf, p1)?;
        proof {
            lemma_skip_skip(buf@, p1 as int, p2 as int);
        }
        let (goal, p3) = <u16 as Encode<'a>>::decode_at(buf, p2)?;
        proof {
            lemma_skip_skip(buf@, p2 as int, p3 as int);
        }
        Ok((BadgeProgress { new, done, goal }, p3))
    }
}

} // verus!
