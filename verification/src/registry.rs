//! The registry data model and its four operations.
//!
//! A `VoteAccount` owns an ordered sequence of candidates. Candidates are
//! appended, never removed, never deduplicated; lookups by nickname always
//! take the first match in insertion order. The operations are pure
//! value transforms: the surrounding environment loads the registry,
//! applies exactly one operation, and persists the result.

use vstd::prelude::*;

verus! {

/// The single failure the registry reports: no candidate carries the
/// requested nickname.
#[derive(Clone, Copy, Debug, PartialEq, Eq, Structural)]
pub enum VoteError {
    NotFound,
}

/// A participant eligible to receive votes: a nickname (any text, duplicates
/// allowed), the 32-byte identifier of the wallet that owns the entry
/// (stored, never interpreted), and a tally that starts at zero.
pub struct Candidate {
    pub nickname: String,
    pub wallet_address: [u8; 32],
    pub votes: u64,
}

/// The mathematical value a `Candidate` stands for.
#[verifier::ext_equal]
pub ghost struct CandidateModel {
    pub nickname: Seq<char>,
    pub wallet_address: Seq<u8>,
    pub votes: u64,
}

impl View for Candidate {
    type V = CandidateModel;

    open spec fn view(&self) -> CandidateModel {
        CandidateModel {
            nickname: self.nickname@,
            wallet_address: self.wallet_address@,
            votes: self.votes,
        }
    }
}

/// The registry: the ordered candidate list, insertion order preserved.
pub struct VoteAccount {
    pub candidates: Vec<Candidate>,
}

impl View for VoteAccount {
    type V = Seq<CandidateModel>;

    open spec fn view(&self) -> Seq<CandidateModel> {
        self.candidates@.map_values(|c: Candidate| c@)
    }
}

/// Some candidate in `s` carries the nickname `name`.
pub open spec fn has_candidate(s: Seq<CandidateModel>, name: Seq<char>) -> bool {
    exists|i: int| 0 <= i < s.len() && #[trigger] s[i].nickname == name
}

/// `i` is the position of the first candidate in `s` whose nickname is `name`.
pub open spec fn is_first_match(s: Seq<CandidateModel>, name: Seq<char>, i: int) -> bool {
    &&& 0 <= i < s.len()
    &&& s[i].nickname == name
    &&& forall|j: int| 0 <= j < i ==> #[trigger] s[j].nickname != name
}

/// The position of the first candidate named `name`, or -1 if there is none.
pub open spec fn first_match(s: Seq<CandidateModel>, name: Seq<char>) -> int
    decreases s.len(),
{
    if s.len() == 0 {
        -1
    } else if s[0].nickname == name {
        0
    } else if first_match(s.subrange(1, s.len() as int), name) == -1 {
        -1
    } else {
        first_match(s.subrange(1, s.len() as int), name) + 1
    }
}

/// What `add_candidate` does to the model: append one fresh entry.
pub open spec fn spec_add(
    s: Seq<CandidateModel>,
    name: Seq<char>,
    wallet: Seq<u8>,
) -> Seq<CandidateModel> {
    s.push(CandidateModel { nickname: name, wallet_address: wallet, votes: 0 })
}

/// What `vote` does to the model: bump the first match, or fail.
pub open spec fn spec_vote(s: Seq<CandidateModel>, name: Seq<char>) -> Option<
    Seq<CandidateModel>,
> {
    let i = first_match(s, name);
    if i == -1 {
        None
    } else {
        Some(
            s.update(
                i,
                CandidateModel {
                    nickname: s[i].nickname,
                    wallet_address: s[i].wallet_address,
                    votes: (s[i].votes + 1) as u64,
                },
            ),
        )
    }
}

/// What `view_vote` reads from the model: the first match's tally, or nothing.
pub open spec fn spec_view(s: Seq<CandidateModel>, name: Seq<char>) -> Option<u64> {
    let i = first_match(s, name);
    if i == -1 {
        None
    } else {
        Some(s[i].votes)
    }
}

/// `first_match` returns -1 exactly when no candidate matches, and otherwise
/// the unique position satisfying `is_first_match`.
pub proof fn lemma_first_match(s: Seq<CandidateModel>, name: Seq<char>)
    ensures
        first_match(s, name) == -1 <==> !has_candidate(s, name),
        first_match(s, name) != -1 ==> is_first_match(s, name, first_match(s, name)),
    decreases s.len(),
{
    if s.len() == 0 {
    } else if s[0].nickname == name {
    } else {
        let rest = s.subrange(1, s.len() as int);
        lemma_first_match(rest, name);
        if has_candidate(s, name) {
            let w = choose|i: int| 0 <= i < s.len() && #[trigger] s[i].nickname == name;
            assert(rest[w - 1].nickname == name);
            assert(has_candidate(rest, name));
        }
        if has_candidate(rest, name) {
            let w = choose|i: int| 0 <= i < rest.len() && #[trigger] rest[i].nickname == name;
            assert(s[w + 1].nickname == name);
            assert(has_candidate(s, name));
        }
        if first_match(rest, name) != -1 {
            let f = first_match(rest, name);
            assert forall|j: int| 0 <= j < f + 1 implies #[trigger] s[j].nickname != name by {
                if j > 0 {
                    assert(rest[j - 1].nickname != name);
                }
            }
        }
    }
}

/// A position that satisfies `is_first_match` is the value of `first_match`.
pub proof fn lemma_first_match_is(s: Seq<CandidateModel>, name: Seq<char>, i: int)
    requires
        is_first_match(s, name, i),
    ensures
        first_match(s, name) == i,
{
    lemma_first_match(s, name);
    assert(has_candidate(s, name));
    let f = first_match(s, name);
    assert(is_first_match(s, name, f));
    if f < i {
        assert(s[f].nickname != name);
    }
    if i < f {
        assert(s[i].nickname != name);
    }
}

/// Adding a candidate appends exactly one entry: every earlier entry keeps
/// its place and fields, and the new last entry carries the given nickname,
/// the given wallet identifier, and a tally of zero.
pub proof fn lemma_add_appends(s: Seq<CandidateModel>, name: Seq<char>, wallet: Seq<u8>)
    ensures
        ({
            let t = spec_add(s, name, wallet);
            &&& t.len() == s.len() + 1
            &&& forall|j: int| 0 <= j < s.len() ==> t[j] == s[j]
            &&& t[s.len() as int] == (CandidateModel {
                nickname: name,
                wallet_address: wallet,
                votes: 0,
            })
        }),
{
}

/// A vote for a nickname that some candidate carries raises the first
/// matching candidate's tally by exactly one and leaves every other entry,
/// and the matching entry's other fields, untouched.
pub proof fn lemma_vote_first_match_only(s: Seq<CandidateModel>, name: Seq<char>)
    requires
        has_candidate(s, name),
        forall|i: int| is_first_match(s, name, i) ==> s[i].votes < u64::MAX,
    ensures
        ({
            let i = first_match(s, name);
            &&& spec_vote(s, name) is Some
            &&& is_first_match(s, name, i)
            &&& spec_vote(s, name)->0.len() == s.len()
            &&& spec_vote(s, name)->0[i].nickname == s[i].nickname
            &&& spec_vote(s, name)->0[i].wallet_address == s[i].wallet_address
            &&& spec_vote(s, name)->0[i].votes == s[i].votes + 1
            &&& forall|j: int|
                0 <= j < s.len() && j != i ==> spec_vote(s, name)->0[j] == s[j]
        }),
{
    lemma_first_match(s, name);
}

/// A vote for a nickname that no candidate carries fails: the model
/// transform yields nothing, so the registry stays as it was.
pub proof fn lemma_vote_not_found(s: Seq<CandidateModel>, name: Seq<char>)
    requires
        !has_candidate(s, name),
    ensures
        spec_vote(s, name) is None,
        spec_view(s, name) is None,
{
    lemma_first_match(s, name);
}

/// The registry after `k` further votes for `name`, or nothing if one of
/// them fails.
pub open spec fn votes_after(s: Seq<CandidateModel>, name: Seq<char>, k: nat) -> Option<
    Seq<CandidateModel>,
>
    decreases k,
{
    if k == 0 {
        Some(s)
    } else {
        match votes_after(s, name, (k - 1) as nat) {
            None => None,
            Some(t) => spec_vote(t, name),
        }
    }
}

/// From a registry whose first match for `name` sits at `i` with tally `v`,
/// `j` votes all succeed and only raise that tally to `v + j`.
proof fn lemma_votes_accumulate(s: Seq<CandidateModel>, name: Seq<char>, i: int, j: nat)
    requires
        is_first_match(s, name, i),
        s[i].votes + j <= u64::MAX,
    ensures
        votes_after(s, name, j) == Some(
            s.update(
                i,
                CandidateModel {
                    nickname: s[i].nickname,
                    wallet_address: s[i].wallet_address,
                    votes: (s[i].votes + j) as u64,
                },
            ),
        ),
    decreases j,
{
    if j == 0 {
        assert(s.update(
            i,
            CandidateModel {
                nickname: s[i].nickname,
                wallet_address: s[i].wallet_address,
                votes: (s[i].votes + 0) as u64,
            },
        ) =~= s);
    } else {
        lemma_votes_accumulate(s, name, i, (j - 1) as nat);
        let t = votes_after(s, name, (j - 1) as nat)->0;
        assert(is_first_match(t, name, i));
        lemma_first_match_is(t, name, i);
        assert(spec_vote(t, name)->0 =~= s.update(
            i,
            CandidateModel {
                nickname: s[i].nickname,
                wallet_address: s[i].wallet_address,
                votes: (s[i].votes + j) as u64,
            },
        ));
    }
}

/// Starting from a registry without `name`, adding a fresh candidate under
/// `name` and casting `k` votes for it leaves a registry whose tally for
/// `name` reads exactly `k`.
pub proof fn lemma_view_vote_counts(
    s: Seq<CandidateModel>,
    name: Seq<char>,
    wallet: Seq<u8>,
    k: nat,
)
    requires
        !has_candidate(s, name),
        k <= u64::MAX,
    ensures
        ({
            let t = votes_after(spec_add(s, name, wallet), name, k);
            &&& t is Some
            &&& spec_view(t->0, name) == Some(k as u64)
        }),
{
    let s1 = spec_add(s, name, wallet);
    let i = s.len() as int;
    assert(is_first_match(s1, name, i));
    lemma_votes_accumulate(s1, name, i, k);
    let t = votes_after(s1, name, k)->0;
    assert(is_first_match(t, name, i));
    lemma_first_match_is(t, name, i);
}

impl VoteAccount {
    /// Create a registry with an empty candidate sequence.
    pub fn initialize() -> (r: VoteAccount)
        ensures
            r@ == Seq::<CandidateModel>::empty(),
    {
        let r = VoteAccount { candidates: Vec::new() };
        proof {
            assert(r@ =~= Seq::<CandidateModel>::empty());
        }
        r
    }

    /// Append one candidate with the given nickname and wallet identifier and
    /// a tally of zero. Any nickname is accepted, a duplicate included.
    pub fn add_candidate(&mut self, nickname: String, wallet_address: [u8; 32])
        ensures
            final(self)@ == spec_add(old(self)@, nickname@, wallet_address@),
    {
        let ghost name = nickname@;
        let ghost s0 = self@;
        self.candidates.push(Candidate { nickname, wallet_address, votes: 0 });
        proof {
            assert(self@ =~= spec_add(s0, name, wallet_address@));
        }
    }

    /// Cast one vote: the first candidate whose nickname equals `nickname`
    /// exactly has its tally raised by one; if none matches, the registry is
    /// left unchanged and `NotFound` comes back.
    pub fn vote(&mut self, nickname: &String) -> (r: Result<(), VoteError>)
        requires
            forall|i: int|
                is_first_match(old(self)@, nickname@, i) ==> old(self)@[i].votes < u64::MAX,
        ensures
            match r {
                Ok(()) => spec_vote(old(self)@, nickname@) == Some(final(self)@),
                Err(e) => {
                    &&& e == VoteError::NotFound
                    &&& !has_candidate(old(self)@, nickname@)
                    &&& final(self)@ == old(self)@
                },
            },
    {
        let n = self.candidates.len();
        let mut i: usize = 0;
        while i < n
            invariant
                *self == *old(self),
                n == self.candidates@.len(),
                i <= n,
                forall|j: int| 0 <= j < i ==> #[trigger] self@[j].nickname != nickname@,
                forall|k: int|
                    is_first_match(old(self)@, nickname@, k) ==> old(self)@[k].votes < u64::MAX,
            decreases n - i,
        {
            if self.candidates[i].nickname == *nickname {
                proof {
                    assert(is_first_match(old(self)@, nickname@, i as int));
                    lemma_first_match_is(old(self)@, nickname@, i as int);
                }
                let cur: u64 = self.candidates[i].votes;
                self.candidates[i].votes = cur + 1;
                proof {
                    assert(self@ =~= old(self)@.update(
                        i as int,
                        CandidateModel {
                            nickname: old(self)@[i as int].nickname,
                            wallet_address: old(self)@[i as int].wallet_address,
                            votes: (old(self)@[i as int].votes + 1) as u64,
                        },
                    ));
                }
                return Ok(());
            }
            i += 1;
        }
        proof {
            assert(!has_candidate(self@, nickname@));
        }
        Err(VoteError::NotFound)
    }

    /// Read the first matching candidate's tally without changing anything;
    /// `NotFound` if no candidate carries the nickname.
    pub fn view_vote(&self, nickname: &String) -> (r: Result<u64, VoteError>)
        ensures
            match r {
                Ok(v) => spec_view(self@, nickname@) == Some(v),
                Err(e) => {
                    &&& e == VoteError::NotFound
                    &&& !has_candidate(self@, nickname@)
                    &&& spec_view(self@, nickname@) is None
                },
            },
    {
        let n = self.candidates.len();
        let mut i: usize = 0;
        while i < n
            invariant
                n == self.candidates@.len(),
                i <= n,
                forall|j: int| 0 <= j < i ==> #[trigger] self@[j].nickname != nickname@,
            decreases n - i,
        {
            if self.candidates[i].nickname == *nickname {
                proof {
                    assert(is_first_match(self@, nickname@, i as int));
                    lemma_first_match_is(self@, nickname@, i as int);
                }
                return Ok(self.candidates[i].votes);
            }
            i += 1;
        }
        proof {
            assert(!has_candidate(self@, nickname@));
            lemma_first_match(self@, nickname@);
        }
        Err(VoteError::NotFound)
    }
}

} // verus!

