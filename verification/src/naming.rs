//! Chunk identities and their on-disk names.
//!
//! A chunk is identified by `(level, index)`; its physical name is the
//! deterministic string `"{level}_{index}.txt"`.  The whole merge schedule is
//! recoverable from level/index bookkeeping alone, so the name is a pure
//! function of the identity.

use vstd::prelude::*;
use vstd::string::StringExecFns;

verus! {

/// The decimal digit character for a value below ten.
pub open spec fn digit_char(d: nat) -> char {
    if d == 0 {
        '0'
    } else if d == 1 {
        '1'
    } else if d == 2 {
        '2'
    } else if d == 3 {
        '3'
    } else if d == 4 {
        '4'
    } else if d == 5 {
        '5'
    } else if d == 6 {
        '6'
    } else if d == 7 {
        '7'
    } else if d == 8 {
        '8'
    } else {
        '9'
    }
}

/// The decimal representation of `n`, most significant digit first.
pub open spec fn dec_rep(n: nat) -> Seq<char>
    decreases n,
{
    if n < 10 {
        seq![digit_char(n)]
    } else {
        dec_rep(n / 10).push(digit_char(n % 10))
    }
}

pub proof fn lemma_dec_rep_len(n: nat)
    ensures
        dec_rep(n).len() >= 1,
    decreases n,
{
    if n >= 10 {
        lemma_dec_rep_len(n / 10);
    }
}

fn digit_str(d: usize) -> (r: &'static str)
    requires
        d < 10,
    ensures
        r@ == seq![digit_char(d as nat)],
{
    proof {
        reveal_strlit("0");
        reveal_strlit("1");
        reveal_strlit("2");
        reveal_strlit("3");
        reveal_strlit("4");
        reveal_strlit("5");
        reveal_strlit("6");
        reveal_strlit("7");
        reveal_strlit("8");
        reveal_strlit("9");
    }
    let r = match d {
        0 => "0",
        1 => "1",
        2 => "2",
        3 => "3",
        4 => "4",
        5 => "5",
        6 => "6",
        7 => "7",
        8 => "8",
        _ => "9",
    };
    proof {
        assert(r@ =~= seq![digit_char(d as nat)]);
    }
    r
}

/// Render `n` in decimal.
pub fn usize_to_string(n: usize) -> (r: String)
    ensures
        r@ == dec_rep(n as nat),
    decreases n,
{
    if n < 10 {
        let mut s = String::new();
        s.append(digit_str(n));
        proof {
            assert(s@ =~= dec_rep(n as nat));
        }
        s
    } else {
        let mut s = usize_to_string(n / 10);
        s.append(digit_str(n % 10));
        proof {
            assert(s@ =~= dec_rep(n as nat));
        }
        s
    }
}

/// The identity of one chunk file: level 0 holds raw post-split chunks, level
/// `k + 1` holds files produced by merging level-`k` files.
#[derive(Clone, Copy, Debug, PartialEq, Eq)]
pub struct ChunkId {
    pub level: usize,
    pub index: usize,
}

/// The characters of the on-disk name of the chunk `(level, index)`.
pub open spec fn spec_file_name(level: nat, index: nat) -> Seq<char> {
    dec_rep(level) + seq!['_'] + dec_rep(index) + seq!['.', 't', 'x', 't']
}

impl ChunkId {
    /// On-disk identity of this chunk: `"{level}_{index}.txt"`.
    pub fn file_name(&self) -> (r: String)
        ensures
            r@ == spec_file_name(self.level as nat, self.index as nat),
    {
        let mut s = usize_to_string(self.level);
        s.append("_");
        let idx = usize_to_string(self.index);
        s.append(idx.as_str());
        s.append(".txt");
        proof {
            reveal_strlit("_");
            reveal_strlit(".txt");
            assert(s@ =~= spec_file_name(self.level as nat, self.index as nat));
        }
        s
    }
}

} // verus!
