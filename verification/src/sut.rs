use vstd::prelude::*;
use crate::errors::Error;
use crate::text::{ascii_chars, ascii_to_string, all_ascii};
use crate::utils::{trim_ws, ByteSliceExt};

verus! {

/// The numeric value of a hexadecimal digit byte, or -1.
pub open spec fn hex_val(b: u8) -> int {
    if 48 <= b <= 57 {
        b - 48
    } else if 97 <= b <= 102 {
        b - 87
    } else if 65 <= b <= 70 {
        b - 55
    } else {
        -1
    }
}

/// The lowercase hexadecimal digit byte for a value below 16.
pub open spec fn hex_digit(d: int) -> u8 {
    if d < 10 {
        (48 + (if 0 <= d {
            d
        } else {
            0
        })) as u8
    } else {
        (87 + (if d <= 15 {
            d
        } else {
            15
        })) as u8
    }
}

/// The 40 lowercase hex digit bytes of a 20-byte hash.
pub open spec fn hash_hex_bytes(h: Seq<u8>) -> Seq<u8> {
    Seq::new(2 * h.len(), |i: int| if i % 2 == 0 {
        hex_digit((h[i / 2] / 16) as int)
    } else {
        hex_digit((h[i / 2] % 16) as int)
    })
}

/// A source revision of one module; currently always a 20-byte binary git
/// hash.
#[derive(Debug, Clone)]
pub enum ModuleRevision {
    Git(Vec<u8>),
}

impl ModuleRevision {
    /// The revision is a git hash of exactly 20 bytes.
    pub open spec fn wf(self) -> bool {
        match self {
            ModuleRevision::Git(h) => h@.len() == 20,
        }
    }

    pub open spec fn spec_hash(self) -> Seq<u8> {
        match self {
            ModuleRevision::Git(h) => h@,
        }
    }

    /// The raw hash bytes.
    pub fn hash_bytes(&self) -> (r: &Vec<u8>)
        ensures
            r@ == self.spec_hash(),
    {
        match self {
            ModuleRevision::Git(h) => h,
        }
    }

    /// Parse 40 hex digit characters (as bytes) into a binary hash.
    ///
    /// Succeeds exactly on 40 hexadecimal digits; upper and lower case are
    /// accepted, as the hex text may come from external tools.
    pub fn from_git_ascii(hex: &[u8]) -> (r: Result<ModuleRevision, Error>)
        ensures
            match r {
                Ok(m) => {
                    &&& m.wf()
                    &&& hex@.len() == 40
                    &&& forall|i: int| 0 <= i < 40 ==> hex_val(#[trigger] hex@[i]) >= 0
                    &&& forall|i: int|
                        0 <= i < 20 ==> (#[trigger] m.spec_hash()[i]) as int == 16 * hex_val(
                            hex@[2 * i],
                        ) + hex_val(hex@[2 * i + 1])
                },
                Err(_) => hex@.len() != 40 || exists|i: int|
                    0 <= i < 40 && hex_val(#[trigger] hex@[i]) < 0,
            },
    {
        if hex.len() != 40 {
            return Err(Error::new(String::from_str("bad git hash length")));
        }
        let mut hash: Vec<u8> = Vec::new();
        let mut i: usize = 0;
        while i < 20
            invariant
                hex@.len() == 40,
                0 <= i <= 20,
                hash@.len() == i,
                forall|j: int| 0 <= j < 2 * i ==> hex_val(#[trigger] hex@[j]) >= 0,
                forall|j: int|
                    0 <= j < i ==> (#[trigger] hash@[j]) as int == 16 * hex_val(hex@[2 * j])
                        + hex_val(hex@[2 * j + 1]),
            decreases 20 - i,
        {
            let hi = hex_digit_val(hex[2 * i]);
            let lo = hex_digit_val(hex[2 * i + 1]);
            let hiv = match hi {
                Some(v) => v,
                None => {
                    return Err(Error::new(String::from_str("bad git hash digit")));
                },
            };
            let lov = match lo {
                Some(v) => v,
                None => {
                    return Err(Error::new(String::from_str("bad git hash digit")));
                },
            };
            hash.push(16 * hiv + lov);
            proof {
                assert forall|j: int| 0 <= j < 2 * (i + 1) implies hex_val(#[trigger] hex@[j])
                    >= 0 by {
                    if j < 2 * i {
                    } else if j == 2 * i {
                    } else {
                        assert(j == 2 * i + 1);
                    }
                }
            }
            i = i + 1;
        }
        Ok(ModuleRevision::Git(hash))
    }

    /// The 40-character lowercase hex spelling of the hash.
    pub fn to_git_string(&self) -> (r: String)
        requires
            self.wf(),
        ensures
            r@ == ascii_chars(hash_hex_bytes(self.spec_hash())),
            r@.len() == 40,
    {
        let h = self.hash_bytes();
        let mut out: Vec<u8> = Vec::new();
        let mut i: usize = 0;
        while i < h.len()
            invariant
                h@ == self.spec_hash(),
                self.wf(),
                0 <= i <= 20,
                out@ == hash_hex_bytes(h@).take(2 * i),
            decreases h@.len() - i,
        {
            let b = h[i];
            let hi = b / 16;
            let lo = b % 16;
            out.push(
                if hi < 10 {
                    48 + hi
                } else {
                    87 + hi
                },
            );
            out.push(
                if lo < 10 {
                    48 + lo
                } else {
                    87 + lo
                },
            );
            proof {
                assert(out@ =~= hash_hex_bytes(h@).take(2 * (i + 1)));
            }
            i = i + 1;
        }
        proof {
            assert(hash_hex_bytes(h@).take(40) =~= hash_hex_bytes(h@));
            assert(all_ascii(hash_hex_bytes(h@)));
        }
        ascii_to_string(&out)
    }
}

/// Parse one hexadecimal digit byte.
fn hex_digit_val(b: u8) -> (r: Option<u8>)
    ensures
        match r {
            Some(v) => hex_val(b) == v as int && v < 16,
            None => hex_val(b) < 0,
        },
{
    if 48 <= b && b <= 57 {
        Some(b - 48)
    } else if 97 <= b && b <= 102 {
        Some(b - 87)
    } else if 65 <= b && b <= 70 {
        Some(b - 55)
    } else {
        None
    }
}

/// A revision of the software under test: the top-level module's revision
/// plus an ordered list of submodule overrides.
#[derive(Debug, Clone)]
pub struct Revision {
    pub top: ModuleRevision,
    pub submodule_overrides: Vec<(String, ModuleRevision)>,
}

impl Revision {
    pub open spec fn wf(self) -> bool {
        &&& self.top.wf()
        &&& forall|i: int|
            0 <= i < self.submodule_overrides@.len()
                ==> (#[trigger] self.submodule_overrides@[i]).1.wf()
    }
}

/// Two revisions name the same source state.
pub open spec fn rev_matches(a: Revision, b: Revision) -> bool {
    &&& a.top.spec_hash() == b.top.spec_hash()
    &&& a.submodule_overrides@.len() == b.submodule_overrides@.len()
    &&& forall|i: int|
        0 <= i < a.submodule_overrides@.len() ==> (#[trigger] a.submodule_overrides@[i]).0@
            == b.submodule_overrides@[i].0@ && a.submodule_overrides@[i].1.spec_hash()
            == b.submodule_overrides@[i].1.spec_hash()
}

/// Decide whether two revisions name the same source state.
pub fn rev_eq(a: &Revision, b: &Revision) -> (r: bool)
    ensures
        r == rev_matches(*a, *b),
{
    if !bytes_vec_eq(a.top.hash_bytes(), b.top.hash_bytes()) {
        return false;
    }
    let n = a.submodule_overrides.len();
    if n != b.submodule_overrides.len() {
        return false;
    }
    let mut i: usize = 0;
    while i < n
        invariant
            n == a.submodule_overrides@.len() == b.submodule_overrides@.len(),
            a.top.spec_hash() == b.top.spec_hash(),
            0 <= i <= n,
            forall|j: int|
                0 <= j < i ==> (#[trigger] a.submodule_overrides@[j]).0@
                    == b.submodule_overrides@[j].0@ && a.submodule_overrides@[j].1.spec_hash()
                    == b.submodule_overrides@[j].1.spec_hash(),
        decreases n - i,
    {
        let (ref pa, ref ra) = a.submodule_overrides[i];
        let (ref pb, ref rb) = b.submodule_overrides[i];
        if !pa.eq(pb) {
            return false;
        }
        if !bytes_vec_eq(ra.hash_bytes(), rb.hash_bytes()) {
            return false;
        }
        i = i + 1;
    }
    true
}

/// Compare two byte vectors.
fn bytes_vec_eq(a: &Vec<u8>, b: &Vec<u8>) -> (r: bool)
    ensures
        r == (a@ == b@),
{
    if a.len() != b.len() {
        return false;
    }
    let n = a.len();
    let mut i: usize = 0;
    while i < n
        invariant
            n == a@.len() == b@.len(),
            0 <= i <= n,
            forall|j: int| 0 <= j < i ==> a@[j] == b@[j],
        decreases n - i,
    {
        if a[i] != b[i] {
            return false;
        }
        i = i + 1;
    }
    proof {
        assert(a@ =~= b@);
    }
    true
}

/// A named branch of the software under test.
#[derive(Debug, Clone)]
pub struct SutBranch {
    pub remote: String,
    pub branch: String,
}

/// The software under test: where its sources live, which submodules it
/// has, its main branch, and the command used to drive version control.
#[derive(Debug, Clone)]
pub struct SoftwareUnderTest {
    pub source: String,
    pub submodules: Vec<String>,
    pub main: SutBranch,
    pub git_wrapper: Option<String>,
}

impl SoftwareUnderTest {
    /// Parse the output of resolving a branch: trim ASCII whitespace around
    /// the 40-digit hash and decode it into a revision with no overrides.
    /// Succeeds exactly when the trimmed output is 40 hexadecimal digits.
    pub fn parse_revision_output(output: &[u8]) -> (r: Result<Revision, Error>)
        ensures
            r is Ok <==> trim_ws(output@).len() == 40 && forall|i: int|
                0 <= i < 40 ==> hex_val(#[trigger] trim_ws(output@)[i]) >= 0,
            r matches Ok(rev) ==> {
                &&& rev.wf()
                &&& rev.submodule_overrides@.len() == 0
                &&& forall|i: int|
                    0 <= i < 20 ==> (#[trigger] rev.top.spec_hash()[i]) as int == 16 * hex_val(
                        trim_ws(output@)[2 * i],
                    ) + hex_val(trim_ws(output@)[2 * i + 1])
            },
    {
        let trimmed = output.trim_whitespace_start().trim_whitespace_end();
        proof {
            assert(trimmed@ == trim_ws(output@));
        }
        let top = match ModuleRevision::from_git_ascii(trimmed) {
            Ok(m) => m,
            Err(e) => {
                return Err(e);
            },
        };
        Ok(Revision { top, submodule_overrides: Vec::new() })
    }
}

} // verus!
