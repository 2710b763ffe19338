//! Scores on the boards of an app, and the friends they refer to.

use vstd::prelude::*;
use crate::items::{
    decode_items, encode_items, enc_items, fill_array, items_size, lemma_items_prefix,
    lemma_items_round_trip, models,
    parse_items,
};
use crate::wire::{
    lemma_skip_skip, lemma_split_step, lemma_take_split, lemma_wrote_then, DecodeError, Encode, EncodeError,
};

verus! {

/// A friend's score on a board.
#[derive(Clone, Copy, Debug, PartialEq, Eq, Structural)]
pub struct FriendScore {
    /// The friend, as an index into [`Friends`].
    pub index: u16,
    pub score: i16,
}

/// The top scores of one board: the local player's, and the friends'.
#[derive(Clone, Copy, Debug, PartialEq, Eq)]
pub struct BoardScores {
    pub me: [i16; 8],
    pub friends: [FriendScore; 8],
}

/// The scores of an app, one entry for each of its boards.
#[derive(Clone, Debug, PartialEq, Eq)]
pub struct Scores {
    pub boards: Vec<BoardScores>,
}

/// The names of the player's friends.
///
/// Scores refer to a friend by index, so the list only grows at its end:
/// an index, once given, keeps naming the same friend.
#[derive(Clone, Debug, PartialEq, Eq)]
pub struct Friends<'a> {
    pub friends: Vec<&'a str>,
}

/// The model of a [`FriendScore`].
pub ghost struct FriendScoreModel {
    pub index: u16,
    pub score: i16,
}

impl DeepView for FriendScore {
    type V = FriendScoreModel;

    open spec fn deep_view(&self) -> FriendScoreModel {
        FriendScoreModel {
            index: self.index,
            score: self.score,
        }
    }
}

impl<'a> Encode<'a> for FriendScore {
    open spec fn spec_enc(v: FriendScoreModel) -> Seq<u8> {
        <u16 as Encode<'a>>::spec_enc(v.index)
            + <i16 as Encode<'a>>::spec_enc(v.score)
    }

    open spec fn spec_parse(s: Seq<u8>) -> Result<(FriendScoreModel, nat), DecodeError> {
        match <u16 as Encode<'a>>::spec_parse(s) {
            Err(e) => Err(e),
            Ok((index, n0)) => {
                let s1 = s.skip(n0 as int);
                match <i16 as Encode<'a>>::spec_parse(s1) {
                    Err(e) => Err(e),
                    Ok((score, n1)) => {
                        Ok((FriendScoreModel { index, score }, n0 + n1))
                    },
                }
            },
        }
    }

    proof fn lemma_round_trip(x: FriendScore, rest: Seq<u8>) {
        let v = x.deep_view();
        let e0 = <u16 as Encode<'a>>::spec_enc(v.index);
        let e1 = <i16 as Encode<'a>>::spec_enc(v.score);
        let x1 = e1;
        lemma_split_step(e0, x1, rest);
        <u16 as Encode<'a>>::lemma_round_trip(x.index, x1 + rest);
        <i16 as Encode<'a>>::lemma_round_trip(x.score, rest);
    }

    proof fn lemma_prefix_truncated(x: FriendScore, k: int) {
        let v = x.deep_view();
        let e0 = <u16 as Encode<'a>>::spec_enc(v.index);
        let e1 = <i16 as Encode<'a>>::spec_enc(v.score);
        let x1 = e1;
        let x0 = e0 + x1;
        lemma_take_split(e0, x1, k);
        if k < e0.len() {
            <u16 as Encode<'a>>::lemma_prefix_truncated(x.index, k);
        } else {
            let k1 = k - e0.len();
            <u16 as Encode<'a>>::lemma_round_trip(x.index, x1.take(k1));
            <i16 as Encode<'a>>::lemma_prefix_truncated(x.score, k1);
        }
    }

    fn size(&self) -> (r: usize) {
        let n0 = self.index.size();
        let n1 = self.score.size();
        n0 + n1
    }

    fn encode_at(&self, buf: &mut [u8], pos: usize) -> (r: Result<usize, EncodeError>) {
        let ghost v = self.deep_view();
        let ghost b0 = buf@;
        let p1 = self.index.encode_at(buf, pos)?;
        let ghost b1 = buf@;
        let p2 = self.score.encode_at(buf, p1)?;
        let ghost b2 = buf@;
        proof {
            let e0 = <u16 as Encode<'a>>::spec_enc(v.index);
            let e1 = <i16 as Encode<'a>>::spec_enc(v.score);
            let x1 = e1;
            lemma_wrote_then(b0, b1, b2, pos as int, e0, x1, p1, p2);
        }
        Ok(p2)
    }

    fn decode_at(buf: &'a [u8], pos: usize) -> (r: Result<(Self, usize), DecodeError>) {
        let (index, p1) = <u16 as Encode<'a>>::decode_at(buf, pos)?;
        proof {
            lemma_skip_skip(buf@, pos as int, p1 as int);
        }
        let (score, p2) = <i16 as Encode<'a>>::decode_at(buf, p1)?;
        proof {
            lemma_skip_skip(buf@, p1 as int, p2 as int);
        }
        Ok((FriendScore { index, score }, p2))
    }
}

impl<'a> Encode<'a> for [FriendScore; 8] {
    open spec fn spec_enc(v: Seq<FriendScoreModel>) -> Seq<u8> {
        enc_items::<FriendScore>(v)
    }

    open spec fn spec_parse(s: Seq<u8>) -> Result<(Seq<FriendScoreModel>, nat), DecodeError> {
        parse_items::<FriendScore>(s, 8)
    }

    proof fn lemma_round_trip(x: [FriendScore; 8], rest: Seq<u8>) {
        assert(x.deep_view() =~= models(x@));
        lemma_items_round_trip::<FriendScore>(x@, rest);
    }

    proof fn lemma_prefix_truncated(x: [FriendScore; 8], k: int) {
        assert(x.deep_view() =~= models(x@));
        lemma_items_prefix::<FriendScore>(x@, k);
    }

    fn size(&self) -> (r: usize) {
        assert(self.deep_view() =~= models(self@));
        items_size(self.as_slice())
    }

    fn encode_at(&self, buf: &mut [u8], pos: usize) -> (r: Result<usize, EncodeError>) {
        assert(self.deep_view() =~= models(self@));
        encode_items(self.as_slice(), buf, pos)
    }

    fn decode_at(buf: &'a [u8], pos: usize) -> (r: Result<(Self, usize), DecodeError>) {
        let (xs, end) = decode_items::<FriendScore>(buf, pos, 8)?;
        let a: [FriendScore; 8] = fill_array(&xs);
        assert(a.deep_view() =~= models(xs@));
        Ok((a, end))
    }
}

/// The model of a [`BoardScores`].
pub ghost struct BoardScoresModel {
    pub me: Seq<i16>,
    pub friends: Seq<FriendScoreModel>,
}

impl DeepView for BoardScores {
    type V = BoardScoresModel;

    open spec fn deep_view(&self) -> BoardScoresModel {
        BoardScoresModel {
            me: self.me.deep_view(),
            friends: self.friends.deep_view(),
        }
    }
}

impl<'a> Encode<'a> for BoardScores {
    open spec fn spec_enc(v: BoardScoresModel) -> Seq<u8> {
        <[i16; 8] as Encode<'a>>::spec_enc(v.me)
            + <[FriendScore; 8] as Encode<'a>>::spec_enc(v.friends)
    }

    open spec fn spec_parse(s: Seq<u8>) -> Result<(BoardScoresModel, nat), DecodeError> {
        match <[i16; 8] as Encode<'a>>::spec_parse(s) {
            Err(e) => Err(e),
            Ok((me, n0)) => {
                let s1 = s.skip(n0 as int);
                match <[FriendScore; 8] as Encode<'a>>::spec_parse(s1) {
                    Err(e) => Err(e),
                    Ok((friends, n1)) => {
                        Ok((BoardScoresModel { me, friends }, n0 + n1))
                    },
                }
            },
        }
    }

    proof fn lemma_round_trip(x: BoardScores, rest: Seq<u8>) {
        let v = x.deep_view();
        let e0 = <[i16; 8] as Encode<'a>>::spec_enc(v.me);
        let e1 = <[FriendScore; 8] as Encode<'a>>::spec_enc(v.friends);
        let x1 = e1;
        lemma_split_step(e0, x1, rest);
        <[i16; 8] as Encode<'a>>::lemma_round_trip(x.me, x1 + rest);
        <[FriendScore; 8] as Encode<'a>>::lemma_round_trip(x.friends, rest);
    }

    proof fn lemma_prefix_truncated(x: BoardScores, k: int) {
        let v = x.deep_view();
        let e0 = <[i16; 8] as Encode<'a>>::spec_enc(v.me);
        let e1 = <[FriendScore; 8] as Encode<'a>>::spec_enc(v.friends);
        let x1 = e1;
        let x0 = e0 + x1;
        lemma_take_split(e0, x1, k);
        if k < e0.len() {
            <[i16; 8] as Encode<'a>>::lemma_prefix_truncated(x.me, k);
        } else {
            let k1 = k - e0.len();
            <[i16; 8] as Encode<'a>>::lemma_round_trip(x.me, x1.take(k1));
            <[FriendScore; 8] as Encode<'a>>::lemma_prefix_truncated(x.friends, k1);
        }
    }

    fn size(&self) -> (r: usize) {
        let n0 = self.me.size();
        let n1 = self.friends.size();
        n0 + n1
    }

    fn encode_at(&self, buf: &mut [u8], pos: usize) -> (r: Result<usize, EncodeError>) {
        let ghost v = self.deep_view();
        let ghost b0 = buf@;
        let p1 = self.me.encode_at(buf, pos)?;
        let ghost b1 = buf@;
        let p2 = self.friends.encode_at(buf, p1)?;
        let ghost b2 = buf@;
        proof {
            let e0 = <[i16; 8] as Encode<'a>>::spec_enc(v.me);
            let e1 = <[FriendScore; 8] as Encode<'a>>::spec_enc(v.friends);
            let x1 = e1;
            lemma_wrote_then(b0, b1, b2, pos as int, e0, x1, p1, p2);
        }
        Ok(p2)
    }

    fn decode_at(buf: &'a [u8], pos: usize) -> (r: Result<(Self, usize), DecodeError>) {
        let (me, p1) = <[i16; 8] as Encode<'a>>::decode_at(buf, pos)?;
        proof {
            lemma_skip_skip(buf@, pos as int, p1 as int);
        }
        let (friends, p2) = <[FriendScore; 8] as Encode<'a>>::decode_at(buf, p1)?;
        proof {
            lemma_skip_skip(buf@, p1 as int, p2 as int);
        }
        Ok((BoardScores { me, friends }, p2))
    }
}

/// The model of a [`Scores`].
pub ghost struct ScoresModel {
    pub boards: Seq<BoardScoresModel>,
}

impl DeepView for Scores {
    type V = ScoresModel;

    open spec fn deep_view(&self) -> ScoresModel {
        ScoresModel {
            boards: self.boards.deep_view(),
        }
    }
}

impl<'a> Encode<'a> for Scores {
    open spec fn spec_enc(v: ScoresModel) -> Seq<u8> {
        <Vec<BoardScores> as Encode<'a>>::spec_enc(v.boards)
    }

    open spec fn spec_parse(s: Seq<u8>) -> Result<(ScoresModel, nat), DecodeError> {
        match <Vec<BoardScores> as Encode<'a>>::spec_parse(s) {
            Err(e) => Err(e),
            Ok((boards, n0)) => {
                Ok((ScoresModel { boards }, n0))
            },
        }
    }

    proof fn lemma_round_trip(x: Scores, rest: Seq<u8>) {
        let v = x.deep_view();
        <Vec<BoardScores> as Encode<'a>>::lemma_round_trip(x.boards, rest);
    }

    proof fn lemma_prefix_truncated(x: Scores, k: int) {
        <Vec<BoardScores> as Encode<'a>>::lemma_prefix_truncated(x.boards, k);
    }

    fn size(&self) -> (r: usize) {
        self.boards.size()
    }

    fn encode_at(&self, buf: &mut [u8], pos: usize) -> (r: Result<usize, EncodeError>) {
        self.boards.encode_at(buf, pos)
    }

    fn decode_at(buf: &'a [u8], pos: usize) -> (r: Result<(Self, usize), DecodeError>) {
        let (boards, p1) = <Vec<BoardScores> as Encode<'a>>::decode_at(buf, pos)?;
        proof {
            lemma_skip_skip(buf@, pos as int, p1 as int);
        }
        Ok((Scores { boards }, p1))
    }
}

/// The model of a [`Friends`].
pub ghost struct FriendsModel {
    pub friends: Seq<Seq<char>>,
}

impl<'a> DeepView for Friends<'a> {
    type V = FriendsModel;

    open spec fn deep_view(&self) -> FriendsModel {
        FriendsModel {
            friends: self.friends.deep_view(),
        }
    }
}

impl<'a> Encode<'a> for Friends<'a> {
    open spec fn spec_enc(v: FriendsModel) -> Seq<u8> {
        <Vec<&'a str> as Encode<'a>>::spec_enc(v.friends)
    }

    open spec fn spec_parse(s: Seq<u8>) -> Result<(FriendsModel, nat), DecodeError> {
        match <Vec<&'a str> as Encode<'a>>::spec_parse(s) {
            Err(e) => Err(e),
            Ok((friends, n0)) => {
                Ok((FriendsModel { friends }, n0))
            },
        }
    }

    proof fn lemma_round_trip(x: Friends<'a>, rest: Seq<u8>) {
        let v = x.deep_view();
        <Vec<&'a str> as Encode<'a>>::lemma_round_trip(x.friends, rest);
    }

    proof fn lemma_prefix_truncated(x: Friends<'a>, k: int) {
        <Vec<&'a str> as Encode<'a>>::lemma_prefix_truncated(x.friends, k);
    }

    fn size(&self) -> (r: usize) {
        self.friends.size()
    }

    fn encode_at(&self, buf: &mut [u8], pos: usize) -> (r: Result<usize, EncodeError>) {
        self.friends.encode_at(buf, pos)
    }

    fn decode_at(buf: &'a [u8], pos: usize) -> (r: Result<(Self, usize), DecodeError>) {
        let (friends, p1) = <Vec<&'a str> as Encode<'a>>::decode_at(buf, pos)?;
        proof {
            lemma_skip_skip(buf@, pos as int, p1 as int);
        }
        Ok((Friends { friends }, p1))
    }
}

/// The friend that `index` names in the list `friends`, if any.
pub open spec fn friend_name(friends: Seq<Seq<char>>, index: u16) -> Option<Seq<char>> {
    if (index as int) < friends.len() {
        Some(friends[index as int])
    } else {
        None
    }
}

impl<'a> Friends<'a> {
    /// Adds a friend at the end of the list, and returns the new friend's
    /// index; or, when the list already holds as many friends as an index can
    /// name, leaves it as it is and returns `None`.
    pub fn push(&mut self, name: &'a str) -> (r: Option<u16>)
        ensures
            old(self).friends@.len() < 0x1_0000 ==> r == Some(old(self).friends@.len() as u16)
                && final(self).friends@ == old(self).friends@.push(name),
            old(self).friends@.len() >= 0x1_0000 ==> r is None && final(self).friends@ == old(
                self,
            ).friends@,
    {
        let n = self.friends.len();
        if n >= 0x1_0000 {
            return None;
        }
        self.friends.push(name);
        Some(n as u16)
    }

    /// The name of the friend at `index`, if there is one.
    pub fn get(&self, index: u16) -> (r: Option<&'a str>)
        ensures
            match r {
                Some(s) => friend_name(self.deep_view().friends, index) == Some(s@),
                None => friend_name(self.deep_view().friends, index) is None,
            },
    {
        let i = index as usize;
        if i < self.friends.len() {
            Some(self.friends[i])
        } else {
            None
        }
    }
}

/// Adding a friend to the list leaves the friend that every existing score
/// names as it was: each friend index that named someone before names the
/// same friend after.
pub proof fn lemma_push_keeps_friend_indices(
    scores: ScoresModel,
    friends: Seq<Seq<char>>,
    name: Seq<char>,
)
    ensures
        forall|b: int, j: int|
            #![trigger scores.boards[b].friends[j]]
            0 <= b < scores.boards.len() && 0 <= j < scores.boards[b].friends.len()
                && friend_name(friends, scores.boards[b].friends[j].index) is Some ==> friend_name(
                friends.push(name),
                scores.boards[b].friends[j].index,
            ) == friend_name(friends, scores.boards[b].friends[j].index),
{
}

} // verus!
