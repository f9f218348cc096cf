//! Where a store keeps its files, and how often it snapshots.
use vstd::prelude::*;

verus! {

/// The home directory of a store and its snapshot policy.
pub struct MerkleRocksDBConfiguration {
    pub snapshot_interval: u64,
    pub snapshot_limit: u64,
    pub home: String,
}

impl MerkleRocksDBConfiguration {
    /// A configuration rooted at `home`, snapshotting every height and
    /// keeping the last thousand snapshots.
    pub fn new(home: &str) -> (r: Self)
        ensures
            r.snapshot_interval == 1,
            r.snapshot_limit == 1000,
            r.home@ == home@,
    {
        MerkleRocksDBConfiguration {
            snapshot_interval: 1,
            snapshot_limit: 1000,
            home: String::from_str(home),
        }
    }

    /// The home directory.
    pub fn get_home(&self) -> (r: String)
        ensures
            r@ == self.home@,
    {
        self.home.clone()
    }

    /// Whether a commit reaching `height` takes a snapshot: snapshots are
    /// on (a non-zero interval), the height is a positive multiple of the
    /// interval, and there is no snapshot of that height yet.
    pub fn snapshot_due(&self, height: u64, exists: bool) -> (r: bool)
        ensures
            r == (self.snapshot_interval != 0 && height != 0 && height % self.snapshot_interval == 0 && !exists),
    {
        if self.snapshot_interval == 0 {
            return false;
        }
        if height == 0 || height % self.snapshot_interval != 0 {
            return false;
        }
        !exists
    }

    /// The snapshot to drop at `height`: the one `interval * limit` heights
    /// below, if `height` is above that span.
    pub fn prune_height(&self, height: u64) -> (r: Option<u64>)
        ensures
            height <= self.snapshot_interval * self.snapshot_limit ==> r is None,
            height > self.snapshot_interval * self.snapshot_limit ==> r == Some((height - self.snapshot_interval * self.snapshot_limit) as u64),
    {
        match self.snapshot_interval.checked_mul(self.snapshot_limit) {
            None => None,
            Some(span) => {
                if height <= span {
                    None
                } else {
                    Some(height - span)
                }
            }
        }
    }

    /// A copy of the configuration.
    pub fn duplicate(&self) -> (r: Self)
        ensures
            r.snapshot_interval == self.snapshot_interval,
            r.snapshot_limit == self.snapshot_limit,
            r.home@ == self.home@,
    {
        MerkleRocksDBConfiguration {
            snapshot_interval: self.snapshot_interval,
            snapshot_limit: self.snapshot_limit,
            home: self.home.clone(),
        }
    }
}

/// `name` inside directory `home`: an absolute `name` (starting with `/`)
/// replaces `home`; otherwise a separator is put between them unless `home`
/// is empty or already ends with one.
pub open spec fn path_join_spec(home: Seq<char>, name: Seq<char>) -> Seq<char> {
    if name.len() > 0 && name[0] == '/' {
        name
    } else if home.len() == 0 {
        name
    } else if home.last() == '/' {
        home + name
    } else {
        home + seq!['/'] + name
    }
}

/// Joins `name` onto directory `home`, as a path join does: an absolute
/// `name` replaces `home`.
pub fn path_join(home: &str, name: &str) -> (r: String)
    ensures
        r@ == path_join_spec(home@, name@),
{
    if name.unicode_len() > 0 && name.get_char(0) == '/' {
        return String::from_str(name);
    }
    let n = home.unicode_len();
    if n == 0 {
        return String::from_str(name);
    }
    let last = home.get_char(n - 1);
    let mut r = String::from_str(home);
    if last != '/' {
        r.append("/");
        proof {
            reveal_strlit("/");
        }
    }
    r.append(name);
    r
}

/// The directory of the live database under `home`.
pub fn merk_db_path(home: &str) -> (r: String)
    ensures
        r@ == path_join_spec(home@, "merk_db"@),
{
    path_join(home, "merk_db")
}

/// The directory a restore is staged in under `home`.
pub fn restore_path(home: &str) -> (r: String)
    ensures
        r@ == path_join_spec(home@, "restore"@),
{
    path_join(home, "restore")
}

/// The directory snapshots are kept in under `home`.
pub fn snapshot_path(home: &str) -> (r: String)
    ensures
        r@ == path_join_spec(home@, "snapshots"@),
{
    path_join(home, "snapshots")
}

/// `256` to the power `n`.
pub open spec fn pow256(n: nat) -> nat
    decreases n,
{
    if n == 0 {
        1
    } else {
        256 * pow256((n - 1) as nat)
    }
}

/// `256^8 = 2^64`.
pub proof fn lemma_pow256_8()
    ensures
        pow256(8) == 0x1_0000_0000_0000_0000,
{
    reveal_with_fuel(pow256, 9);
}

/// Powers of 256 are positive and grow with the exponent.
pub proof fn lemma_pow256_mono(a: nat, b: nat)
    requires
        a <= b,
    ensures
        0 < pow256(a) <= pow256(b),
    decreases b,
{
    if b > a {
        lemma_pow256_mono(a, (b - 1) as nat);
    } else {
        lemma_pow256_pos(a);
    }
}

/// Powers of 256 are positive.
pub proof fn lemma_pow256_pos(n: nat)
    ensures
        0 < pow256(n),
    decreases n,
{
    if n > 0 {
        lemma_pow256_pos((n - 1) as nat);
    }
}

/// Big-endian value of a byte string.
pub open spec fn be_value(s: Seq<u8>) -> nat
    decreases s.len(),
{
    if s.len() == 0 {
        0
    } else {
        be_value(s.drop_last()) * 256 + s.last() as nat
    }
}

/// Big-endian value of at most eight bytes fits in 64 bits.
pub proof fn lemma_be_value_bound(s: Seq<u8>)
    ensures
        be_value(s) < pow256(s.len()),
    decreases s.len(),
{
    if s.len() > 0 {
        lemma_be_value_bound(s.drop_last());
        let p = pow256((s.len() - 1) as nat);
        let b = be_value(s.drop_last());
        assert(b * 256 + s.last() < p * 256) by (nonlinear_arith)
            requires
                b < p,
                s.last() < 256,
        ;
    }
}

/// Reads eight big-endian bytes as a `u64`.
pub fn read_u64(bytes: &[u8]) -> (r: u64)
    requires
        bytes@.len() == 8,
    ensures
        r as nat == be_value(bytes@),
{
    let mut v: u64 = 0;
    let mut i: usize = 0;
    while i < 8
        invariant
            i <= 8,
            bytes@.len() == 8,
            v as nat == be_value(bytes@.subrange(0, i as int)),
        decreases 8 - i,
    {
        proof {
            let s = bytes@.subrange(0, i + 1);
            assert(s.drop_last() =~= bytes@.subrange(0, i as int));
            lemma_be_value_bound(s);
            lemma_pow256_mono(s.len(), 8);
            lemma_pow256_8();
        }
        v = v * 256 + bytes[i] as u64;
        i = i + 1;
    }
    proof {
        assert(bytes@.subrange(0, 8) =~= bytes@);
    }
    v
}

/// The eight big-endian bytes of `h`.
pub fn u64_to_be_bytes(h: u64) -> (r: Vec<u8>)
    ensures
        r@.len() == 8,
        be_value(r@) == h as nat,
{
    let mut bytes: Vec<u8> = Vec::new();
    let mut i: usize = 0;
    let mut x: u64 = h;
    proof {
        assert(bytes@.reverse() =~= Seq::<u8>::empty());
        assert(pow256(0) == 1);
    }
    // bytes collected least significant first
    while i < 8
        invariant
            i <= 8,
            bytes@.len() == i,
            h as nat == x as nat * pow256(i as nat) + be_value(bytes@.reverse()),
            x as nat * pow256(i as nat) <= h,
        decreases 8 - i,
    {
        let b = (x % 256) as u8;
        let ghost old_bytes = bytes@;
        let ghost old_x = x;
        bytes.push(b);
        x = x / 256;
        proof {
            let p = pow256(i as nat);
            assert(pow256((i + 1) as nat) == 256 * p);
            lemma_pow256_pos(i as nat);
            lemma_be_value_bound(old_bytes.reverse());
            assert(old_bytes.reverse().len() == i);
            let rest = be_value(old_bytes.reverse());
            assert(old_x as nat == x as nat * 256 + b as nat);
            assert(be_value(bytes@.reverse()) == b as nat * p + rest) by {
                lemma_be_value_prepend(old_bytes.reverse(), b);
                assert(seq![b] + old_bytes.reverse() =~= bytes@.reverse()) by {
                    assert(bytes@ =~= old_bytes.push(b));
                }
            };
            assert(old_x as nat * p == (x as nat * 256 + b as nat) * p);
            assert((x as nat * 256 + b as nat) * p == x as nat * (p * 256) + b as nat * p) by (nonlinear_arith);
            assert(x as nat * (p * 256) <= old_x as nat * p) by (nonlinear_arith)
                requires
                    old_x as nat == x as nat * 256 + b as nat,
            ;
        }
        i = i + 1;
    }
    proof {
        lemma_pow256_8();
        if x > 0 {
            assert(x as nat * pow256(8) >= pow256(8)) by (nonlinear_arith)
                requires x > 0, pow256(8) > 0;
        }
    }
    let mut out: Vec<u8> = Vec::new();
    let mut j: usize = 8;
    while j > 0
        invariant
            j <= 8,
            bytes@.len() == 8,
            out@ == bytes@.reverse().subrange(0, (8 - j) as int),
        decreases j,
    {
        j = j - 1;
        out.push(bytes[j]);
        proof {
            assert(out@ =~= bytes@.reverse().subrange(0, (8 - j) as int));
        }
    }
    proof {
        assert(out@ =~= bytes@.reverse());
    }
    out
}

/// Big-endian value after putting a byte in front.
pub proof fn lemma_be_value_prepend(s: Seq<u8>, b: u8)
    ensures
        be_value(seq![b] + s) == b as nat * pow256(s.len()) + be_value(s),
    decreases s.len(),
{
    if s.len() == 0 {
        assert(seq![b] + s =~= seq![b]);
        assert(seq![b].drop_last() =~= Seq::<u8>::empty());
        assert(seq![b].last() == b);
        assert(pow256(0) == 1);
        assert(be_value(Seq::<u8>::empty()) == 0);
        assert(be_value(seq![b]) == be_value(seq![b].drop_last()) * 256 + b as nat);
        assert(pow256(s.len()) == 1);
        assert(b as nat * pow256(s.len()) == b as nat) by (nonlinear_arith)
            requires
                pow256(s.len()) == 1,
        ;
    } else {
        let t = seq![b] + s;
        assert(t.drop_last() =~= seq![b] + s.drop_last());
        assert(t.last() == s.last());
        assert(pow256(s.len()) == 256 * pow256((s.len() - 1) as nat));
        lemma_be_value_prepend(s.drop_last(), b);
        let p = pow256((s.len() - 1) as nat);
        assert(be_value(t) == be_value(t.drop_last()) * 256 + t.last() as nat);
        assert(be_value(t.drop_last()) == b as nat * p + be_value(s.drop_last()));
        assert(be_value(s) == be_value(s.drop_last()) * 256 + s.last() as nat);
        assert((b as nat * p + be_value(s.drop_last())) * 256 + s.last() as nat
            == b as nat * (p * 256) + (be_value(s.drop_last()) * 256 + s.last() as nat)) by (nonlinear_arith);
        assert(b as nat * (p * 256) == b as nat * pow256(s.len()));
    }
}

} // verus!
