//! Short-lived, single-use tokens that stand in for passwords while they
//! travel between the user interface and the SSH back end.
use vstd::prelude::*;

verus! {

/// How long a stored password stays claimable, in nanoseconds (30 s).
pub const TOKEN_TTL_NANOS: u128 = 30_000_000_000;

/// `std::time::Instant`, carried opaquely: the escrow only keeps the
/// instant it was created at and asks how much time has passed since.
#[verifier::external_type_specification]
#[verifier::external_body]
pub struct ExInstant(std::time::Instant);

/// A stored password and the moment, in nanoseconds since the escrow was
/// created, from which it can no longer be claimed.
pub struct EscrowRecord {
    pub password: Seq<char>,
    pub expires_at: u128,
}

struct EscrowEntry {
    token: String,
    password: String,
    expires_at: u128,
}

/// Stores passwords behind single-use tokens that expire after
/// [`TOKEN_TTL_NANOS`].
pub struct CredentialEscrow {
    epoch: std::time::Instant,
    clock: u128,
    entries: Vec<EscrowEntry>,
}

spec fn record_of(e: EscrowEntry) -> EscrowRecord {
    EscrowRecord { password: e.password@, expires_at: e.expires_at }
}

/// The records of a list of entries, keyed by token.
spec fn records(s: Seq<EscrowEntry>) -> Map<Seq<char>, EscrowRecord>
    decreases s.len(),
{
    if s.len() == 0 {
        Map::empty()
    } else {
        records(s.drop_last()).insert(s.last().token@, record_of(s.last()))
    }
}

spec fn tokens_unique(s: Seq<EscrowEntry>) -> bool {
    forall|i: int, j: int| 0 <= i < j < s.len() ==> s[i].token@ != s[j].token@
}

/// The records of `m` that are still claimable at `now`.
pub open spec fn live_at(m: Map<Seq<char>, EscrowRecord>, now: u128) -> Map<Seq<char>, EscrowRecord> {
    m.restrict(m.dom().filter(|k: Seq<char>| m[k].expires_at > now))
}

/// The expiry of a password stored at `now`.
pub open spec fn expiry_for(now: u128) -> u128 {
    if now as int + TOKEN_TTL_NANOS as int > u128::MAX as int {
        u128::MAX
    } else {
        (now + TOKEN_TTL_NANOS) as u128
    }
}

/// What `claim` returns for `token` at `now`.
pub open spec fn claim_result(m: Map<Seq<char>, EscrowRecord>, token: Seq<char>, now: u128) -> Option<
    Seq<char>,
> {
    if m.contains_key(token) && m[token].expires_at > now {
        Some(m[token].password)
    } else {
        None
    }
}

proof fn lemma_records_dom(s: Seq<EscrowEntry>)
    ensures
        forall|k: Seq<char>|
            #[trigger] records(s).contains_key(k) <==> exists|i: int|
                0 <= i < s.len() && #[trigger] s[i].token@ == k,
    decreases s.len(),
{
    if s.len() > 0 {
        let t = s.drop_last();
        lemma_records_dom(t);
        assert forall|k: Seq<char>| #[trigger]
            records(s).contains_key(k) <==> exists|i: int|
                0 <= i < s.len() && #[trigger] s[i].token@ == k by {
            if records(s).contains_key(k) && k != s.last().token@ {
                assert(records(t).contains_key(k));
                let i = choose|i: int| 0 <= i < t.len() && #[trigger] t[i].token@ == k;
                assert(s[i].token@ == k);
            }
            if records(s).contains_key(k) && k == s.last().token@ {
                assert(s[s.len() - 1].token@ == k);
            }
            if exists|i: int| 0 <= i < s.len() && #[trigger] s[i].token@ == k {
                let i = choose|i: int| 0 <= i < s.len() && #[trigger] s[i].token@ == k;
                if i < s.len() - 1 {
                    assert(t[i].token@ == k);
                    assert(records(t).contains_key(k));
                }
            }
        }
    }
}

proof fn lemma_records_at(s: Seq<EscrowEntry>, i: int)
    requires
        tokens_unique(s),
        0 <= i < s.len(),
    ensures
        records(s).contains_key(s[i].token@),
        records(s)[s[i].token@] == record_of(s[i]),
    decreases s.len(),
{
    if i < s.len() - 1 {
        let t = s.drop_last();
        assert(t[i] == s[i]);
        lemma_records_at(t, i);
        assert(s[i].token@ != s.last().token@);
    }
}

/// The records of `m` other than `excluded`, and, when `threshold` is
/// given, only those that expire after it.
spec fn kept_records(
    m: Map<Seq<char>, EscrowRecord>,
    threshold: Option<u128>,
    excluded: Seq<char>,
) -> Map<Seq<char>, EscrowRecord> {
    m.restrict(
        m.dom().filter(
            |k: Seq<char>|
                k != excluded && match threshold {
                    Some(now) => m[k].expires_at > now,
                    None => true,
                },
        ),
    )
}

/// Splits `entries` into those kept by [`kept_records`] and the entry for
/// `excluded`, if there is one.
fn partition_entries(entries: Vec<EscrowEntry>, threshold: Option<u128>, excluded: &String) -> (r: (
    Vec<EscrowEntry>,
    Option<EscrowEntry>,
))
    requires
        tokens_unique(entries@),
    ensures
        tokens_unique(r.0@),
        records(r.0@) == kept_records(records(entries@), threshold, excluded@),
        match r.1 {
            Some(e) => records(entries@).contains_key(excluded@) && e.token@ == excluded@
                && record_of(e) == records(entries@)[excluded@],
            None => !records(entries@).contains_key(excluded@),
        },
{
    let ghost orig = entries@;
    let mut rest = entries;
    let mut kept: Vec<EscrowEntry> = Vec::new();
    let mut removed: Option<EscrowEntry> = None;
    let n = rest.len();
    let mut i: usize = 0;
    assert(orig.skip(0) =~= orig);
    assert(records(kept@) =~= kept_records(records(orig.take(0)), threshold, excluded@));
    while i < n
        invariant
            n == orig.len(),
            i <= n,
            tokens_unique(orig),
            rest@ == orig.skip(i as int),
            tokens_unique(kept@),
            records(kept@) == kept_records(records(orig.take(i as int)), threshold, excluded@),
            match removed {
                Some(e) => records(orig.take(i as int)).contains_key(excluded@) && e.token@
                    == excluded@ && record_of(e) == records(orig.take(i as int))[excluded@],
                None => !records(orig.take(i as int)).contains_key(excluded@),
            },
        decreases n - i,
    {
        let e = rest.remove(0);
        assert(e == orig[i as int]);
        assert(rest@ =~= orig.skip(i + 1));
        let ghost pre = orig.take(i as int);
        let ghost post = orig.take(i + 1);
        assert(post.drop_last() =~= pre);
        assert(post.last() == e);
        let ghost m = records(pre);
        proof {
            lemma_records_dom(pre);
            lemma_records_dom(kept@);
            if m.contains_key(e.token@) {
                let j = choose|j: int| 0 <= j < pre.len() && #[trigger] pre[j].token@ == e.token@;
                assert(orig[j].token@ == orig[i as int].token@);
            }
        }
        assert(!m.contains_key(e.token@));
        let live = match threshold {
            Some(now) => e.expires_at > now,
            None => true,
        };
        if e.token == *excluded {
            assert(kept_records(records(post), threshold, excluded@) =~= kept_records(
                m,
                threshold,
                excluded@,
            ));
            removed = Some(e);
        } else if live {
            proof {
                if exists|j: int| 0 <= j < kept@.len() && #[trigger] kept@[j].token@ == e.token@ {
                    assert(records(kept@).contains_key(e.token@));
                }
            }
            let ghost kept_before = kept@;
            kept.push(e);
            assert(kept@.drop_last() =~= kept_before);
            assert(records(kept@) =~= kept_records(records(post), threshold, excluded@));
        } else {
            assert(kept_records(records(post), threshold, excluded@) =~= kept_records(
                m,
                threshold,
                excluded@,
            ));
        }
        i = i + 1;
    }
    assert(orig.take(n as int) =~= orig);
    (kept, removed)
}

impl View for CredentialEscrow {
    type V = Map<Seq<char>, EscrowRecord>;

    closed spec fn view(&self) -> Map<Seq<char>, EscrowRecord> {
        records(self.entries@)
    }
}

/// Calls `std::time::Instant::now`. Nothing is claimed of the instant.
#[verifier::external_body]
fn instant_now() -> (now: std::time::Instant) {
    std::time::Instant::now()
}

/// Calls `Instant::elapsed` on `epoch` and reads the duration with
/// `Duration::as_nanos`. Nothing is claimed of the result: it depends on
/// the clock.
#[verifier::external_body]
fn nanos_since(epoch: &std::time::Instant) -> (nanos: u128) {
    epoch.elapsed().as_nanos()
}

/// Calls `uuid::Uuid::new_v4` and renders the UUID with its `Display`
/// impl. Claimed: the text has the hyphenated lower-case shape that
/// `uuid`'s formatter writes, with the version and variant digits that
/// `new_v4` sets (see [`is_token_shape`]); the other digits are random and
/// nothing more is claimed of them.
#[verifier::external_body]
fn new_token() -> (token: String)
    ensures
        is_token_shape(token@),
{
    uuid::Uuid::new_v4().to_string()
}

/// The hyphenated lower-case form of a version-4 UUID: 36 characters,
/// hyphens at 8, 13, 18 and 23, lower-case hexadecimal digits elsewhere,
/// the version digit `4` at 14 and the RFC 4122 variant (one of `8`, `9`,
/// `a`, `b`) at 19.
pub open spec fn is_token_shape(t: Seq<char>) -> bool {
    &&& t.len() == 36
    &&& forall|i: int|
        0 <= i < 36 ==> if i == 8 || i == 13 || i == 18 || i == 23 {
            #[trigger] t[i] == '-'
        } else {
            ('0' <= t[i] && t[i] <= '9') || ('a' <= t[i] && t[i] <= 'f')
        }
    &&& t[14] == '4'
    &&& (t[19] == '8' || t[19] == '9' || t[19] == 'a' || t[19] == 'b')
}

impl CredentialEscrow {
    /// The latest reading of the escrow's clock, in nanoseconds since the
    /// escrow was created: the time at which its last `store` or `claim`
    /// was judged.
    pub closed spec fn clock(&self) -> u128 {
        self.clock
    }

    /// Reads the clock: nanoseconds since the escrow was created. The
    /// reading never goes back: `Instant` is monotonic, so the elapsed time
    /// is already at least the previous reading, and the previous reading
    /// is kept should the platform's clock misbehave.
    fn read_clock(&mut self) -> (now: u128)
        ensures
            now >= old(self).clock(),
            final(self).clock() == now,
            final(self)@ == old(self)@,
    {
        proof {
            use_type_invariant(&*self);
        }
        let elapsed = nanos_since(&self.epoch);
        let now = if elapsed > self.clock {
            elapsed
        } else {
            self.clock
        };
        self.clock = now;
        now
    }

    #[verifier::type_invariant]
    spec fn inv(self) -> bool {
        tokens_unique(self.entries@)
    }

    /// An escrow that holds nothing.
    pub fn new() -> (e: Self)
        ensures
            e@ == Map::<Seq<char>, EscrowRecord>::empty(),
            e.clock() == 0,
    {
        CredentialEscrow { epoch: instant_now(), clock: 0, entries: Vec::new() }
    }

    /// Stores `password` under `token` at time `now` (nanoseconds since the
    /// escrow was created), first dropping every record that has expired.
    pub fn store_at(&mut self, password: String, token: String, now: u128)
        ensures
            final(self)@ == live_at(old(self)@, now).insert(
                token@,
                EscrowRecord { password: password@, expires_at: expiry_for(now) },
            ),
            final(self).clock() == old(self).clock(),
    {
        proof {
            use_type_invariant(&*self);
        }
        let mut taken: Vec<EscrowEntry> = Vec::new();
        std::mem::swap(&mut self.entries, &mut taken);
        let ghost m = records(taken@);
        let (mut kept, _) = partition_entries(taken, Some(now), &token);
        let ghost kept_before = kept@;
        proof {
            lemma_records_dom(kept_before);
            if exists|j: int| 0 <= j < kept_before.len() && #[trigger] kept_before[j].token@ == token@ {
                assert(records(kept_before).contains_key(token@));
            }
        }
        let expires_at = now.saturating_add(TOKEN_TTL_NANOS);
        kept.push(EscrowEntry { token, password, expires_at });
        assert(kept@.drop_last() =~= kept_before);
        assert(records(kept@) =~= live_at(m, now).insert(
            token@,
            EscrowRecord { password: password@, expires_at: expiry_for(now) },
        ));
        self.entries = kept;
    }

    /// Stores `password` and returns the fresh single-use token that claims
    /// it within [`TOKEN_TTL_NANOS`]; records that have expired are dropped.
    /// The store is judged at the current clock reading, which is no earlier
    /// than any earlier reading of this escrow's clock.
    pub fn store(&mut self, password: String) -> (token: String)
        ensures
            is_token_shape(token@),
            final(self).clock() >= old(self).clock(),
            final(self)@ == live_at(old(self)@, final(self).clock()).insert(
                token@,
                EscrowRecord { password: password@, expires_at: expiry_for(final(self).clock()) },
            ),
            exists|now: u128|
                final(self)@ == #[trigger] live_at(old(self)@, now).insert(
                    token@,
                    EscrowRecord { password: password@, expires_at: expiry_for(now) },
                ),
    {
        let token = new_token();
        let now = self.read_clock();
        self.store_at(password, token.clone(), now);
        token
    }

    /// Claims `token`: its record is removed, and its password is returned
    /// when the record had not yet expired at the current clock reading,
    /// which is no earlier than any earlier reading of this escrow's clock
    /// (that of the store of `token` among them).
    pub fn claim(&mut self, token: &str) -> (r: Option<String>)
        ensures
            final(self)@ == old(self)@.remove(token@),
            final(self).clock() >= old(self).clock(),
            crate::ssh_config_parser::opt_str(r) == claim_result(old(self)@, token@, final(self).clock()),
            exists|now: u128|
                crate::ssh_config_parser::opt_str(r) == #[trigger] claim_result(
                    old(self)@,
                    token@,
                    now,
                ),
    {
        let now = self.read_clock();
        self.claim_at(token, now)
    }

    /// Removes the record of `token` and returns its password when the
    /// record was still claimable at `now`.
    pub fn claim_at(&mut self, token: &str, now: u128) -> (r: Option<String>)
        ensures
            final(self)@ == old(self)@.remove(token@),
            crate::ssh_config_parser::opt_str(r) == claim_result(old(self)@, token@, now),
            final(self).clock() == old(self).clock(),
    {
        proof {
            use_type_invariant(&*self);
        }
        let mut taken: Vec<EscrowEntry> = Vec::new();
        std::mem::swap(&mut self.entries, &mut taken);
        let ghost m = records(taken@);
        let key = token.to_owned();
        let (kept, removed) = partition_entries(taken, None, &key);
        assert(records(kept@) =~= m.remove(token@));
        self.entries = kept;
        match removed {
            Some(e) => {
                if e.expires_at <= now {
                    None
                } else {
                    Some(e.password)
                }
            },
            None => None,
        }
    }
}

/// A password stored under a token is returned by a claim of that token
/// made less than [`TOKEN_TTL_NANOS`] (30 s) after it was stored, on a clock
/// reading at which that expiry is still a representable instant.
pub proof fn law_claim_returns_stored(
    m: Map<Seq<char>, EscrowRecord>,
    token: Seq<char>,
    password: Seq<char>,
    stored_at: u128,
    claimed_at: u128,
)
    requires
        stored_at as int + TOKEN_TTL_NANOS as int <= u128::MAX as int,
        (claimed_at as int) < stored_at as int + TOKEN_TTL_NANOS as int,
    ensures
        claim_result(
            live_at(m, stored_at).insert(
                token,
                EscrowRecord { password, expires_at: expiry_for(stored_at) },
            ),
            token,
            claimed_at,
        ) == Some(password),
{
}

/// A token is claimable once: after a claim, claiming it again gives
/// nothing, at any time.
pub proof fn law_claim_is_single_use(m: Map<Seq<char>, EscrowRecord>, token: Seq<char>, now: u128)
    ensures
        claim_result(m.remove(token), token, now) == None::<Seq<char>>,
{
}

/// A claim made [`TOKEN_TTL_NANOS`] (30 s) or more after the password was
/// stored gives nothing.
pub proof fn law_expired_claim_fails(
    m: Map<Seq<char>, EscrowRecord>,
    token: Seq<char>,
    password: Seq<char>,
    stored_at: u128,
    claimed_at: u128,
)
    requires
        claimed_at as int >= stored_at as int + TOKEN_TTL_NANOS as int,
    ensures
        claim_result(
            live_at(m, stored_at).insert(
                token,
                EscrowRecord { password, expires_at: expiry_for(stored_at) },
            ),
            token,
            claimed_at,
        ) == None::<Seq<char>>,
{
}

/// Storing a password leaves every other token's claim unchanged at any
/// later time: only records already expired are dropped.
pub proof fn law_store_keeps_other_claims(
    m: Map<Seq<char>, EscrowRecord>,
    token: Seq<char>,
    password: Seq<char>,
    other: Seq<char>,
    stored_at: u128,
    claimed_at: u128,
)
    requires
        other != token,
        stored_at <= claimed_at,
    ensures
        claim_result(
            live_at(m, stored_at).insert(
                token,
                EscrowRecord { password, expires_at: expiry_for(stored_at) },
            ),
            other,
            claimed_at,
        ) == claim_result(m, other, claimed_at),
{
}

/// A token that was never stored claims nothing.
pub proof fn law_unknown_token_claims_nothing(
    m: Map<Seq<char>, EscrowRecord>,
    token: Seq<char>,
    now: u128,
)
    requires
        !m.contains_key(token),
    ensures
        claim_result(m, token, now) == None::<Seq<char>>,
{
}

} // verus!
