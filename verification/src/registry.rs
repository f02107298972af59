//! The shared account registry.
//!
//! The registry is the source of truth for identity, password digest,
//! current session token and live connection handle.  Callers reach it
//! only through the operations here; the caller that shares it across
//! connections serializes them (one registry, one guard).  A live
//! connection is named by a plain numeric handle; what socket a handle
//! stands for is the caller's business.
//!
//! Invariants: usernames are unique across the registry, and a live
//! handle is bound to at most one account at a time — a login or a
//! rebind that claims a handle releases it from any other account.
use vstd::prelude::*;
use crate::token::create_token;
use crate::token::is_token;

verus! {

/// One registered identity.  Accounts are never deleted; they persist
/// for the life of the process.
pub struct Account {
    pub username: String,
    /// Password digest as the hashing collaborator encodes it.
    pub digest: String,
    /// Current session token; empty only before the first one is issued.
    pub token: String,
    /// The live connection bound to this account, if any.
    pub handle: Option<u64>,
}

/// Why registration fails.
#[derive(Clone, Copy, Debug, PartialEq, Eq, Structural)]
pub enum RegisterError {
    /// The username is already taken.
    DuplicateUsername,
}

/// Why login fails.
#[derive(Clone, Copy, Debug, PartialEq, Eq, Structural)]
pub enum AuthError {
    /// No account carries this username and digest pair.
    InvalidCredentials,
}

/// Some account carries this username.
pub open spec fn spec_has_username(accs: Seq<Account>, u: Seq<char>) -> bool {
    exists|i: int| 0 <= i < accs.len() && #[trigger] accs[i].username@ == u
}

/// Some account carries this username and digest pair.
pub open spec fn spec_credentials_match(accs: Seq<Account>, u: Seq<char>, d: Seq<char>) -> bool {
    exists|i: int|
        0 <= i < accs.len() && #[trigger] accs[i].username@ == u && accs[i].digest@ == d
}

/// Some account carries this username and currently holds this token.
pub open spec fn spec_session_valid(accs: Seq<Account>, u: Seq<char>, t: Seq<char>) -> bool {
    exists|i: int| 0 <= i < accs.len() && #[trigger] accs[i].username@ == u && accs[i].token@ == t
}

/// Account `j` after another account claimed `handle`: identity, digest
/// and token unchanged, and the handle released if this account held it.
pub open spec fn spec_handle_released(
    olds: Seq<Account>,
    accs: Seq<Account>,
    j: int,
    handle: u64,
) -> bool {
    &&& accs[j].username@ == olds[j].username@
    &&& accs[j].digest@ == olds[j].digest@
    &&& accs[j].token@ == olds[j].token@
    &&& accs[j].handle == (if olds[j].handle == Some(handle) {
        None::<u64>
    } else {
        olds[j].handle
    })
}

/// The account table `accs` is the table `olds` after a successful
/// login of `(u, d)` at index `i`: that account holds the new token `t`
/// and the live handle, every other account is unchanged except that
/// the handle was released from it.
pub open spec fn spec_login_applied(
    olds: Seq<Account>,
    accs: Seq<Account>,
    i: int,
    u: Seq<char>,
    d: Seq<char>,
    t: Seq<char>,
    handle: u64,
) -> bool {
    &&& 0 <= i < olds.len()
    &&& accs.len() == olds.len()
    &&& olds[i].username@ == u
    &&& olds[i].digest@ == d
    &&& accs[i].username@ == u
    &&& accs[i].digest@ == d
    &&& accs[i].token@ == t
    &&& accs[i].handle == Some(handle)
    &&& forall|j: int|
        0 <= j < olds.len() && j != i ==> spec_handle_released(olds, accs, j, handle)
}

/// The account table `accs` is the table `olds` after a rebind of
/// `handle` to the account matching `(u, t)`: that account holds the
/// handle, every other account is unchanged except that the handle was
/// released from it.  When nothing matches `(u, t)`, nothing changed.
pub open spec fn spec_rebind_applied(
    olds: Seq<Account>,
    accs: Seq<Account>,
    u: Seq<char>,
    t: Seq<char>,
    handle: u64,
) -> bool {
    &&& accs.len() == olds.len()
    &&& if spec_session_valid(olds, u, t) {
        forall|j: int|
            0 <= j < olds.len() ==> if olds[j].username@ == u && olds[j].token@ == t {
                &&& accs[j].username@ == olds[j].username@
                &&& accs[j].digest@ == olds[j].digest@
                &&& accs[j].token@ == olds[j].token@
                &&& accs[j].handle == Some(handle)
            } else {
                spec_handle_released(olds, accs, j, handle)
            }
    } else {
        accs == olds
    }
}

/// After releasing `handle` from every account but `keep` (giving the
/// table `mid`) and then granting it to the account at `keep` (giving
/// the table `accs`), every other account stands with the handle
/// released, usernames stay unique, and live handles stay unique.
proof fn lemma_claim_handle(
    olds: Seq<Account>,
    mid: Seq<Account>,
    accs: Seq<Account>,
    keep: int,
    handle: u64,
)
    requires
        0 <= keep < olds.len(),
        mid.len() == olds.len(),
        mid[keep] == olds[keep],
        forall|j: int|
            0 <= j < olds.len() && j != keep ==> #[trigger] spec_handle_released(
                olds,
                mid,
                j,
                handle,
            ),
        accs.len() == mid.len(),
        forall|j: int| 0 <= j < mid.len() && j != keep ==> #[trigger] accs[j] == mid[j],
        accs[keep].username@ == olds[keep].username@,
        accs[keep].digest@ == olds[keep].digest@,
        accs[keep].handle == Some(handle),
        forall|i: int, j: int|
            0 <= i < j < olds.len() ==> #[trigger] olds[i].username@ != #[trigger] olds[j].username@,
        forall|i: int, j: int|
            0 <= i < j < olds.len() && olds[i].handle is Some ==> #[trigger] olds[i].handle
                != #[trigger] olds[j].handle,
    ensures
        forall|j: int|
            0 <= j < olds.len() && j != keep ==> #[trigger] spec_handle_released(
                olds,
                accs,
                j,
                handle,
            ),
        forall|i: int, j: int|
            0 <= i < j < accs.len() ==> #[trigger] accs[i].username@ != #[trigger] accs[j].username@,
        forall|i: int, j: int|
            0 <= i < j < accs.len() && accs[i].handle is Some ==> #[trigger] accs[i].handle
                != #[trigger] accs[j].handle,
{
    assert forall|j: int| 0 <= j < olds.len() && j != keep implies #[trigger] spec_handle_released(
        olds,
        accs,
        j,
        handle,
    ) by {
        assert(spec_handle_released(olds, mid, j, handle));
        assert(accs[j] == mid[j]);
    }
    assert forall|i: int, j: int| 0 <= i < j < accs.len() implies #[trigger] accs[i].username@
        != #[trigger] accs[j].username@ by {
        if i != keep {
            assert(spec_handle_released(olds, accs, i, handle));
        }
        if j != keep {
            assert(spec_handle_released(olds, accs, j, handle));
        }
        assert(accs[i].username@ == olds[i].username@);
        assert(accs[j].username@ == olds[j].username@);
    }
    assert forall|i: int, j: int|
        0 <= i < j < accs.len() && accs[i].handle is Some implies #[trigger] accs[i].handle
        != #[trigger] accs[j].handle by {
        if i != keep {
            assert(spec_handle_released(olds, accs, i, handle));
            assert(accs[i].handle == olds[i].handle);
            assert(olds[i].handle != Some(handle));
        }
        if j != keep {
            assert(spec_handle_released(olds, accs, j, handle));
        }
    }
}

/// The shared table of all accounts.
pub struct Registry {
    accounts: Vec<Account>,
}

impl Registry {
    /// The accounts, in registration order.
    pub closed spec fn accounts(self) -> Seq<Account> {
        self.accounts@
    }

    /// Well-formedness: usernames unique, live handles unique.
    pub open spec fn wf(self) -> bool {
        &&& forall|i: int, j: int|
            0 <= i < j < self.accounts().len() ==> #[trigger] self.accounts()[i].username@
                != #[trigger] self.accounts()[j].username@
        &&& forall|i: int, j: int|
            0 <= i < j < self.accounts().len() && self.accounts()[i].handle is Some
                ==> #[trigger] self.accounts()[i].handle != #[trigger] self.accounts()[j].handle
    }

    /// An empty registry.
    pub fn new() -> (r: Registry)
        ensures
            r.wf(),
            r.accounts().len() == 0,
    {
        Registry { accounts: Vec::new() }
    }

    /// Whether some account carries this username.
    pub fn contains_username(&self, username: &String) -> (b: bool)
        ensures
            b == spec_has_username(self.accounts(), username@),
    {
        let n = self.accounts.len();
        let mut i: usize = 0;
        while i < n
            invariant
                n == self.accounts().len(),
                i <= n,
                forall|k: int| 0 <= k < i ==> #[trigger] self.accounts()[k].username@ != username@,
            decreases n - i,
        {
            if self.accounts[i].username == *username {
                return true;
            }
            i = i + 1;
        }
        false
    }

    /// Register a new account under `username` with password digest
    /// `digest`.  Rejects a username that is already taken; otherwise
    /// appends the account with a freshly generated session token and
    /// no live handle, and returns that token.
    pub fn register(&mut self, username: String, digest: String) -> (r: Result<
        String,
        RegisterError,
    >)
        requires
            old(self).wf(),
        ensures
            final(self).wf(),
            r is Ok <==> !spec_has_username(old(self).accounts(), username@),
            r is Err ==> r->Err_0 == RegisterError::DuplicateUsername && final(self).accounts()
                == old(self).accounts(),
            r is Ok ==> final(self).accounts().len() == old(self).accounts().len() + 1,
            r is Ok ==> forall|i: int|
                0 <= i < old(self).accounts().len() ==> final(self).accounts()[i]
                    == #[trigger] old(self).accounts()[i],
            r is Ok ==> is_token(r->Ok_0@),
            r is Ok ==> final(self).accounts().last().username@ == username@,
            r is Ok ==> final(self).accounts().last().digest@ == digest@,
            r is Ok ==> final(self).accounts().last().token@ == (r->Ok_0)@,
            r is Ok ==> final(self).accounts().last().handle is None,
    {
        if self.contains_username(&username) {
            return Err(RegisterError::DuplicateUsername);
        }
        let token = create_token();
        let reply = clone_string(&token);
        self.accounts.push(Account { username, digest, token, handle: None });
        Ok(reply)
    }

    /// Authenticate `username` against the stored digest.  On an exact
    /// (username, digest) match: generate a fresh session token, store
    /// it (invalidating whatever token the account held before), bind
    /// `handle` as the account's live connection — releasing that
    /// handle from any other account — and return the new token.  On a
    /// mismatch or an unknown username, reject and change nothing.
    pub fn authenticate(&mut self, username: &String, digest: &String, handle: u64) -> (r: Result<
        String,
        AuthError,
    >)
        requires
            old(self).wf(),
        ensures
            final(self).wf(),
            r is Ok <==> spec_credentials_match(old(self).accounts(), username@, digest@),
            r is Err ==> r->Err_0 == AuthError::InvalidCredentials && final(self).accounts()
                == old(self).accounts(),
            r is Ok ==> is_token(r->Ok_0@),
            r is Ok ==> exists|i: int|
                #[trigger] spec_login_applied(
                    old(self).accounts(),
                    final(self).accounts(),
                    i,
                    username@,
                    digest@,
                    (r->Ok_0)@,
                    handle,
                ),
            // a fresh login owns the session: afterwards exactly the new
            // token is valid for this username
            r is Ok ==> forall|t: Seq<char>|
                #[trigger] spec_session_valid(final(self).accounts(), username@, t) <==> t == (
                r->Ok_0)@,
    {
        let n = self.accounts.len();
        let mut i: usize = 0;
        while i < n
            invariant
                self.accounts() == old(self).accounts(),
                old(self).wf(),
                n == self.accounts().len(),
                i <= n,
                forall|k: int|
                    0 <= k < i ==> !(#[trigger] self.accounts()[k].username@ == username@
                        && self.accounts()[k].digest@ == digest@),
            decreases n - i,
        {
            if self.accounts[i].username == *username && self.accounts[i].digest == *digest {
                let token = create_token();
                let reply = clone_string(&token);
                let ghost olds = self.accounts();
                self.release_handle_except(handle, i);
                let ghost mid = self.accounts();
                self.accounts[i].token = token;
                self.accounts[i].handle = Some(handle);
                proof {
                    let accs = self.accounts();
                    lemma_claim_handle(olds, mid, accs, i as int, handle);
                    assert(accs[i as int].token@ == reply@);
                    assert(spec_login_applied(
                        olds,
                        accs,
                        i as int,
                        username@,
                        digest@,
                        reply@,
                        handle,
                    ));
                    assert forall|t: Seq<char>|
                        #[trigger] spec_session_valid(accs, username@, t) <==> t == reply@ by {
                        if spec_session_valid(accs, username@, t) {
                            let k = choose|k: int|
                                0 <= k < accs.len() && #[trigger] accs[k].username@ == username@
                                    && accs[k].token@ == t;
                            if k != i {
                                assert(spec_handle_released(olds, accs, k, handle));
                                assert(olds[k].username@ == olds[i as int].username@);
                                assert(false);
                            }
                        }
                        if t == reply@ {
                            assert(accs[i as int].username@ == username@ && accs[i as int].token@
                                == t);
                        }
                    }
                }
                return Ok(reply);
            }
            i = i + 1;
        }
        Err(AuthError::InvalidCredentials)
    }

    /// Release `handle` from every account except the one at `keep`:
    /// a connection relays for one account at a time.
    fn release_handle_except(&mut self, handle: u64, keep: usize)
        requires
            keep < old(self).accounts().len(),
        ensures
            final(self).accounts().len() == old(self).accounts().len(),
            final(self).accounts()[keep as int] == old(self).accounts()[keep as int],
            forall|j: int|
                0 <= j < old(self).accounts().len() && j != keep ==> #[trigger] spec_handle_released(
                    old(self).accounts(),
                    final(self).accounts(),
                    j,
                    handle,
                ),
    {
        let ghost olds = self.accounts();
        let n = self.accounts.len();
        let mut j: usize = 0;
        while j < n
            invariant
                olds == old(self).accounts(),
                n == olds.len(),
                n == self.accounts().len(),
                j <= n,
                keep < n,
                self.accounts()[keep as int] == olds[keep as int],
                forall|k: int|
                    0 <= k < n && (k >= j || k == keep) ==> #[trigger] self.accounts()[k] == olds[k],
                forall|k: int|
                    0 <= k < j && k != keep ==> #[trigger] spec_handle_released(
                        olds,
                        self.accounts(),
                        k,
                        handle,
                    ),
            decreases n - j,
        {
            let ghost pre = self.accounts();
            if j != keep {
                let clear = match self.accounts[j].handle {
                    Some(h) => h == handle,
                    None => false,
                };
                if clear {
                    self.accounts[j].handle = None;
                }
            }
            proof {
                assert forall|k: int|
                    0 <= k < j + 1 && k != keep implies #[trigger] spec_handle_released(
                    olds,
                    self.accounts(),
                    k,
                    handle,
                ) by {
                    if k < j {
                        assert(spec_handle_released(olds, pre, k, handle));
                        assert(self.accounts()[k] == pre[k]);
                    } else {
                        assert(pre[k] == olds[k]);
                    }
                }
            }
            j = j + 1;
        }
    }

    /// Whether an account with this username currently holds exactly
    /// this token.
    pub fn is_session_valid(&self, username: &String, token: &String) -> (b: bool)
        ensures
            b == spec_session_valid(self.accounts(), username@, token@),
    {
        let n = self.accounts.len();
        let mut i: usize = 0;
        while i < n
            invariant
                n == self.accounts().len(),
                i <= n,
                forall|k: int|
                    0 <= k < i ==> !(#[trigger] self.accounts()[k].username@ == username@
                        && self.accounts()[k].token@ == token@),
            decreases n - i,
        {
            if self.accounts[i].username == *username && self.accounts[i].token == *token {
                return true;
            }
            i = i + 1;
        }
        false
    }

    /// Bind `handle` as the live connection of the account matching
    /// `(username, token)`, releasing it from any other account.  A
    /// no-op when no account matches.
    pub fn rebind_handle(&mut self, username: &String, token: &String, handle: u64)
        requires
            old(self).wf(),
        ensures
            final(self).wf(),
            spec_rebind_applied(
                old(self).accounts(),
                final(self).accounts(),
                username@,
                token@,
                handle,
            ),
    {
        let ghost olds = self.accounts();
        let n = self.accounts.len();
        let mut found = false;
        let mut at: usize = 0;
        let mut i: usize = 0;
        while i < n
            invariant
                self.accounts() == old(self).accounts(),
                old(self).wf(),
                olds == old(self).accounts(),
                n == self.accounts().len(),
                i <= n,
                found ==> at < i && olds[at as int].username@ == username@ && olds[at as int].token@
                    == token@,
                !found ==> forall|k: int|
                    0 <= k < i ==> !(#[trigger] olds[k].username@ == username@ && olds[k].token@
                        == token@),
            decreases n - i,
        {
            if !found && self.accounts[i].username == *username && self.accounts[i].token
                == *token {
                found = true;
                at = i;
            }
            i = i + 1;
        }
        if !found {
            return ;
        }
        self.release_handle_except(handle, at);
        let ghost mid = self.accounts();
        self.accounts[at].handle = Some(handle);
        proof {
            let accs = self.accounts();
            lemma_claim_handle(olds, mid, accs, at as int, handle);
            assert(spec_session_valid(olds, username@, token@)) by {
                assert(olds[at as int].username@ == username@ && olds[at as int].token@ == token@);
            }
            assert forall|j: int| 0 <= j < olds.len() implies (if olds[j].username@ == username@
                && olds[j].token@ == token@ {
                &&& accs[j].username@ == olds[j].username@
                &&& accs[j].digest@ == olds[j].digest@
                &&& accs[j].token@ == olds[j].token@
                &&& accs[j].handle == Some(handle)
            } else {
                spec_handle_released(olds, accs, j, handle)
            }) by {
                if olds[j].username@ == username@ && olds[j].token@ == token@ {
                    if j != at {
                        assert(olds[j].username@ == olds[at as int].username@);
                        assert(false);
                    }
                    assert(accs[at as int].username@ == olds[at as int].username@);
                    assert(accs[at as int].digest@ == olds[at as int].digest@);
                    assert(accs[at as int].token@ == olds[at as int].token@);
                } else {
                    assert(j != at);
                    assert(spec_handle_released(olds, accs, j, handle));
                }
            }
        }
    }

    /// A copy of the accounts, in registration order, for iteration
    /// outside the guard that serializes the registry's callers.
    pub fn snapshot(&self) -> (r: Vec<Account>)
        ensures
            r@.len() == self.accounts().len(),
            forall|i: int|
                0 <= i < r@.len() ==> ({
                    &&& (#[trigger] r@[i]).username@ == self.accounts()[i].username@
                    &&& r@[i].digest@ == self.accounts()[i].digest@
                    &&& r@[i].token@ == self.accounts()[i].token@
                    &&& r@[i].handle == self.accounts()[i].handle
                }),
    {
        let n = self.accounts.len();
        let mut r: Vec<Account> = Vec::new();
        let mut i: usize = 0;
        while i < n
            invariant
                n == self.accounts().len(),
                i <= n,
                r@.len() == i,
                forall|k: int|
                    0 <= k < i ==> ({
                        &&& (#[trigger] r@[k]).username@ == self.accounts()[k].username@
                        &&& r@[k].digest@ == self.accounts()[k].digest@
                        &&& r@[k].token@ == self.accounts()[k].token@
                        &&& r@[k].handle == self.accounts()[k].handle
                    }),
            decreases n - i,
        {
            let a = &self.accounts[i];
            let copy = Account {
                username: clone_string(&a.username),
                digest: clone_string(&a.digest),
                token: clone_string(&a.token),
                handle: a.handle,
            };
            r.push(copy);
            i = i + 1;
        }
        r
    }

    /// The account at a position, in registration order.
    pub fn account_at(&self, i: usize) -> (a: &Account)
        requires
            i < self.accounts().len(),
        ensures
            *a == self.accounts()[i as int],
    {
        &self.accounts[i]
    }

    /// The number of accounts.
    pub fn len(&self) -> (n: usize)
        ensures
            n == self.accounts().len(),
    {
        self.accounts.len()
    }
}

/// Copy a string.
fn clone_string(s: &String) -> (r: String)
    ensures
        r@ == s@,
{
    s.clone()
}

} // verus!
