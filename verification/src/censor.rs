//! Censorship diagnostics: checks transactions against a blacklist of
//! account names and builds the record that the application appends to
//! its side ledger.  Account names are handled as byte strings under the
//! chain's account-name grammar.
use vstd::prelude::*;

verus! {

/// Where a censored transaction was intercepted.
#[derive(Clone, Copy, PartialEq, Eq, Structural, Debug)]
pub enum TransactionOrigin {
    ClientAdapter,
    Client,
    SendTxAsync,
    SendTxCommit,
}

impl TransactionOrigin {
    /// The origin's name, as written into the ledger.
    pub fn label(&self) -> (r: &'static str)
        ensures
            r@ == match *self {
                TransactionOrigin::ClientAdapter => "ClientAdapter"@,
                TransactionOrigin::Client => "Client"@,
                TransactionOrigin::SendTxAsync => "SendTxAsync"@,
                TransactionOrigin::SendTxCommit => "SendTxCommit"@,
            },
    {
        match self {
            TransactionOrigin::ClientAdapter => "ClientAdapter",
            TransactionOrigin::Client => "Client",
            TransactionOrigin::SendTxAsync => "SendTxAsync",
            TransactionOrigin::SendTxCommit => "SendTxCommit",
        }
    }
}

/// What the censorship check reads from a signed transaction: the
/// account names involved and an opaque payload standing for the rest.
#[derive(Clone, PartialEq, Eq, Debug)]
pub struct SignedTransaction {
    pub signer_id: Vec<u8>,
    pub receiver_id: Vec<u8>,
    pub payload: u64,
}

/// A transaction found blacklisted, ready to be appended to the ledger.
#[derive(Clone, PartialEq, Eq, Debug)]
pub struct CensoredTransaction {
    pub transaction: SignedTransaction,
    pub blacklisted_id: Vec<u8>,
    pub where_censored: TransactionOrigin,
    /// Wall-clock time of the interception, in milliseconds.
    pub timestamp: i64,
}

/// A row of the test table of the side ledger.
pub struct TestRow {
    pub pes_id: String,
}

/// A lowercase letter, a digit, or one of the three separators.
pub open spec fn account_byte_ok(b: u8) -> bool {
    (97 <= b <= 122) || (48 <= b <= 57) || b == 45 || b == 95 || b == 46
}

/// `-`, `_` or `.`.
pub open spec fn account_sep(b: u8) -> bool {
    b == 45 || b == 95 || b == 46
}

/// The chain's account-name grammar: 2 to 64 bytes, lowercase
/// alphanumerics and separators, where a separator never starts or ends
/// the name and is always followed by an alphanumeric.
pub open spec fn valid_account_id(s: Seq<u8>) -> bool {
    &&& 2 <= s.len() <= 64
    &&& forall|i: int| 0 <= i < s.len() ==> account_byte_ok(#[trigger] s[i])
    &&& forall|i: int|
        0 <= i < s.len() && account_sep(#[trigger] s[i]) ==> 0 < i < s.len() - 1 && !account_sep(
            s[i + 1],
        )
}

/// Checks a byte string against the account-name grammar.
pub fn validate_account_id(s: &Vec<u8>) -> (r: bool)
    ensures
        r == valid_account_id(s@),
{
    let n = s.len();
    if n < 2 || n > 64 {
        return false;
    }
    let mut i: usize = 0;
    while i < n
        invariant
            n == s@.len(),
            2 <= n <= 64,
            i <= n,
            forall|j: int| 0 <= j < i ==> account_byte_ok(#[trigger] s@[j]),
            forall|j: int|
                0 <= j < i && account_sep(#[trigger] s@[j]) ==> 0 < j < s@.len() - 1
                    && !account_sep(s@[j + 1]),
        decreases n - i,
    {
        let b = s[i];
        let ok = (97 <= b && b <= 122) || (48 <= b && b <= 57) || b == 45 || b == 95 || b == 46;
        if !ok {
            return false;
        }
        let sep = b == 45 || b == 95 || b == 46;
        if sep {
            if i == 0 || i == n - 1 {
                return false;
            }
            let nxt = s[i + 1];
            if nxt == 45 || nxt == 95 || nxt == 46 {
                return false;
            }
        }
        i += 1;
    }
    true
}

/// Whether every comma-separated segment of `s`, scanning from `i` with
/// the current segment starting at `segstart`, is a valid account name.
pub open spec fn segments_valid_from(s: Seq<u8>, i: int, segstart: int) -> bool
    decreases s.len() - i,
{
    if i >= s.len() {
        valid_account_id(s.subrange(segstart, s.len() as int))
    } else if s[i] == 44 {
        valid_account_id(s.subrange(segstart, i)) && segments_valid_from(s, i + 1, i + 1)
    } else {
        segments_valid_from(s, i + 1, segstart)
    }
}

/// Every comma-separated segment of `s` is a valid account name.
pub open spec fn segments_valid(s: Seq<u8>) -> bool {
    segments_valid_from(s, 0, 0)
}

/// The byte strings of a name list.
pub open spec fn byte_views(ids: Seq<Vec<u8>>) -> Seq<Seq<u8>> {
    ids.map_values(|v: Vec<u8>| v@)
}

/// The name list joined back with commas.
pub open spec fn joined(ids: Seq<Seq<u8>>) -> Seq<u8>
    decreases ids.len(),
{
    if ids.len() == 0 {
        Seq::empty()
    } else if ids.len() == 1 {
        ids[0]
    } else {
        joined(ids.drop_last()) + seq![44u8] + ids.last()
    }
}

/// A parse in progress: the finished names, a comma after each if any
/// name is finished, then the bytes of the current segment.
pub open spec fn joined_partial(ids: Seq<Seq<u8>>, cur: Seq<u8>) -> Seq<u8> {
    if ids.len() == 0 {
        cur
    } else {
        joined(ids) + seq![44u8] + cur
    }
}

/// Splits a blacklist environment string on commas and validates every
/// entry against the account-name grammar; one bad entry rejects the
/// whole list, as the chain's own name parser would.
pub fn parse_blacklist(env: &Vec<u8>) -> (r: Option<Vec<Vec<u8>>>)
    ensures
        r.is_some() == segments_valid(env@),
        match r {
            Some(ids) => ids@.len() > 0 && joined(byte_views(ids@)) == env@ && forall|j: int|
                0 <= j < ids@.len() ==> valid_account_id((#[trigger] ids@[j])@),
            None => true,
        },
{
    let n = env.len();
    let mut ids: Vec<Vec<u8>> = Vec::new();
    let mut cur: Vec<u8> = Vec::new();
    let mut i: usize = 0;
    let mut segstart: usize = 0;
    while i < n
        invariant
            n == env@.len(),
            i <= n,
            segstart <= i,
            cur@ == env@.subrange(segstart as int, i as int),
            joined_partial(byte_views(ids@), cur@) == env@.take(i as int),
            segments_valid(env@) == segments_valid_from(env@, i as int, segstart as int),
            forall|j: int| 0 <= j < ids@.len() ==> valid_account_id((#[trigger] ids@[j])@),
        decreases n - i,
    {
        let b = env[i];
        if b == 44 {
            if !validate_account_id(&cur) {
                proof {
                    assert(!segments_valid_from(env@, i as int, segstart as int));
                }
                return None;
            }
            let ghost idsp = ids@;
            let ghost curp = cur@;
            ids.push(cur);
            cur = Vec::new();
            proof {
                assert(cur@ =~= env@.subrange(i + 1, i + 1));
                assert forall|j: int| 0 <= j < ids@.len() implies valid_account_id(
                    (#[trigger] ids@[j])@,
                ) by {
                    if j == ids@.len() - 1 {
                    }
                }
                assert(byte_views(ids@) =~= byte_views(idsp).push(curp));
                lemma_joined_push(byte_views(idsp), curp);
                assert(env@.take(i + 1) =~= env@.take(i as int).push(44u8));
                assert(joined_partial(byte_views(ids@), Seq::empty()) =~= env@.take(i + 1));
                assert(cur@ =~= Seq::<u8>::empty());
            }
            i += 1;
            segstart = i;
        } else {
            let ghost curp = cur@;
            cur.push(b);
            proof {
                assert(cur@ =~= env@.subrange(segstart as int, i + 1));
                assert(env@.take(i + 1) =~= env@.take(i as int).push(b));
                assert(joined_partial(byte_views(ids@), cur@) =~= joined_partial(
                    byte_views(ids@),
                    curp,
                ).push(b));
            }
            i += 1;
        }
    }
    proof {
        assert(cur@ == env@.subrange(segstart as int, env@.len() as int));
    }
    if !validate_account_id(&cur) {
        return None;
    }
    let ghost idsp = ids@;
    let ghost curp = cur@;
    ids.push(cur);
    proof {
        assert forall|j: int| 0 <= j < ids@.len() implies valid_account_id(
            (#[trigger] ids@[j])@,
        ) by {
            if j == ids@.len() - 1 {
            }
        }
        assert(byte_views(ids@) =~= byte_views(idsp).push(curp));
        lemma_joined_push(byte_views(idsp), curp);
        assert(env@.take(n as int) =~= env@);
        assert(joined(byte_views(ids@)) =~= env@);
    }
    Some(ids)
}

/// Appending one more name to a joined list adds a comma and the name,
/// unless the list was empty.
pub proof fn lemma_joined_push(ids: Seq<Seq<u8>>, cur: Seq<u8>)
    ensures
        ids.len() == 0 ==> joined(ids.push(cur)) == cur,
        ids.len() > 0 ==> joined(ids.push(cur)) == joined(ids) + seq![44u8] + cur,
{
    let full = ids.push(cur);
    if ids.len() == 0 {
        assert(full.len() == 1);
        assert(full[0] == cur);
    } else {
        assert(full.len() >= 2);
        assert(full.drop_last() =~= ids);
        assert(full.last() == cur);
    }
}

/// Byte-string equality.
pub fn bytes_eq(a: &Vec<u8>, b: &Vec<u8>) -> (r: bool)
    ensures
        r == (a@ == b@),
{
    if a.len() != b.len() {
        proof {
            assert(a@ != b@);
        }
        return false;
    }
    let n = a.len();
    let mut i: usize = 0;
    while i < n
        invariant
            n == a@.len(),
            n == b@.len(),
            i <= n,
            forall|j: int| 0 <= j < i ==> a@[j] == b@[j],
        decreases n - i,
    {
        if a[i] != b[i] {
            proof {
                assert(a@[i as int] != b@[i as int]);
            }
            return false;
        }
        i += 1;
    }
    proof {
        assert(a@ =~= b@);
    }
    true
}

/// An exact copy of a byte string.
pub fn bytes_dup(a: &Vec<u8>) -> (r: Vec<u8>)
    ensures
        r@ == a@,
{
    let mut out: Vec<u8> = Vec::new();
    let n = a.len();
    let mut i: usize = 0;
    while i < n
        invariant
            n == a@.len(),
            i <= n,
            out@ == a@.take(i as int),
        decreases n - i,
    {
        out.push(a[i]);
        proof {
            assert(out@ =~= a@.take(i + 1));
        }
        i += 1;
    }
    proof {
        assert(a@.take(n as int) =~= a@);
    }
    out
}

/// Whether the blacklist names the transaction's receiver or signer;
/// the receiver takes precedence when both match, as the ledger records
/// the receiver's name.
pub fn check_blacklisted(transaction: &SignedTransaction, blacklist: &Vec<Vec<u8>>) -> (r: (
    bool,
    Option<Vec<u8>>,
))
    ensures
        r.0 == ((exists|i: int|
            0 <= i < blacklist@.len() && (#[trigger] blacklist@[i])@ == transaction.receiver_id@)
            || (exists|i: int|
            0 <= i < blacklist@.len() && (#[trigger] blacklist@[i])@ == transaction.signer_id@)),
        (exists|i: int|
            0 <= i < blacklist@.len() && (#[trigger] blacklist@[i])@ == transaction.receiver_id@)
            ==> match r.1 {
            Some(id) => id@ == transaction.receiver_id@,
            None => false,
        },
        r.0 && !(exists|i: int|
            0 <= i < blacklist@.len() && (#[trigger] blacklist@[i])@ == transaction.receiver_id@)
            ==> match r.1 {
            Some(id) => id@ == transaction.signer_id@,
            None => false,
        },
        match r.1 {
            Some(id) => r.0,
            None => !r.0,
        },
{
    if blacklist_contains(blacklist, &transaction.receiver_id) {
        return (true, Some(bytes_dup(&transaction.receiver_id)));
    }
    if blacklist_contains(blacklist, &transaction.signer_id) {
        return (true, Some(bytes_dup(&transaction.signer_id)));
    }
    (false, None)
}

/// Whether `list` holds a byte string equal to `x`.
fn blacklist_contains(list: &Vec<Vec<u8>>, x: &Vec<u8>) -> (r: bool)
    ensures
        r == exists|i: int| 0 <= i < list@.len() && (#[trigger] list@[i])@ == x@,
{
    let n = list.len();
    let mut i: usize = 0;
    while i < n
        invariant
            n == list@.len(),
            i <= n,
            forall|j: int| 0 <= j < i ==> (#[trigger] list@[j])@ != x@,
        decreases n - i,
    {
        if bytes_eq(&list[i], x) {
            return true;
        }
        i += 1;
    }
    false
}

/// Decides whether a transaction is censored: if the blacklist names
/// its receiver or signer, builds the ledger record stamped with the
/// current wall-clock time, recording the receiver's name when both
/// names match.
pub fn censor_check(transaction: SignedTransaction, origin: TransactionOrigin, blacklist: &Vec<
    Vec<u8>,
>) -> (r: Option<CensoredTransaction>)
    ensures
        r.is_some() == ((exists|i: int|
            0 <= i < blacklist@.len() && (#[trigger] blacklist@[i])@ == transaction.receiver_id@)
            || (exists|i: int|
            0 <= i < blacklist@.len() && (#[trigger] blacklist@[i])@ == transaction.signer_id@)),
        match r {
            Some(c) => c.transaction == transaction && c.where_censored == origin
                && c.blacklisted_id@ == (if exists|i: int|
                0 <= i < blacklist@.len() && (#[trigger] blacklist@[i])@
                    == transaction.receiver_id@ {
                transaction.receiver_id@
            } else {
                transaction.signer_id@
            }),
            None => true,
        },
{
    let hit = check_blacklisted(&transaction, blacklist);
    if hit.0 {
        let blacklisted_id = match hit.1 {
            Some(id) => id,
            None => Vec::new(),
        };
        let timestamp = now_utc_millis();
        Some(
            CensoredTransaction { transaction, blacklisted_id, where_censored: origin, timestamp },
        )
    } else {
        None
    }
}

/// Relies on `chrono::Utc::now`: the current wall-clock time, in
/// milliseconds since the epoch.  The result depends on the clock, so
/// nothing further is promised of it.
#[verifier::external_body]
fn now_utc_millis() -> (r: i64)
{
    chrono::Utc::now().timestamp_millis()
}

/// Relies on `std::path::Path::exists`: whether the path names an
/// entity on disk.  The result depends on the file system, so nothing
/// further is promised of it.
#[verifier::external_body]
fn path_exists(p: &str) -> (r: bool)
{
    std::path::Path::new(p).exists()
}

/// Whether the ledger file at `file_path` already exists; the caller
/// appends to an existing file and creates a missing one.
pub fn file_exists(file_path: &str) -> (r: bool)
{
    path_exists(file_path)
}

} // verus!
