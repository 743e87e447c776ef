use vstd::prelude::*;
use vstd::string::*;
use crate::chunking::str_eq;

verus! {

/// A character that passes through table-name sanitization unchanged:
/// ASCII alphanumerics, underscore, hyphen and dot.
pub open spec fn keeps_char(c: char) -> bool {
    let u = c as u32;
    (97 <= u <= 122) || (65 <= u <= 90) || (48 <= u <= 57) || u == 95 || u == 45 || u == 46
}

/// The lowercase hex digit for a value below sixteen.
pub open spec fn hex_digit(m: int) -> char {
    if m < 10 {
        ((48 + m) as u8) as char
    } else {
        ((87 + m) as u8) as char
    }
}

/// The hex digits of `n`, most significant first, empty for zero.
pub open spec fn hex_digits(n: nat) -> Seq<char>
    decreases n,
{
    if n == 0 {
        seq![]
    } else {
        hex_digits(n / 16).push(hex_digit((n % 16) as int))
    }
}

/// `k` zero characters (none when `k` is not positive).
pub open spec fn zeros(k: int) -> Seq<char> {
    Seq::new(if k >= 0 {
        k as nat
    } else {
        0
    }, |i: int| '0')
}

/// The code point as lowercase hex, zero-padded to at least four digits.
pub open spec fn hex4(n: nat) -> Seq<char> {
    zeros(4 - hex_digits(n).len()) + hex_digits(n)
}

/// One character of a container name as it appears in the table name: kept
/// as is when harmless, replaced by its four-digit code point escape
/// otherwise.
pub open spec fn encode_char(c: char) -> Seq<char> {
    if keeps_char(c) {
        seq![c]
    } else {
        hex4((c as u32) as nat)
    }
}

/// The sanitized body of a table name.
pub open spec fn table_name_chars(s: Seq<char>) -> Seq<char>
    decreases s.len(),
{
    if s.len() == 0 {
        seq![]
    } else {
        table_name_chars(s.drop_last()) + encode_char(s.last())
    }
}

/// The storage-table identifier derived from a container name: the
/// sanitized name behind a fixed `c_` prefix.
pub open spec fn spec_table_name(s: Seq<char>) -> Seq<char> {
    seq!['c', '_'] + table_name_chars(s)
}

/// Relies on String::from_utf8: bytes below 128 decode to the characters
/// with the same code points.
#[verifier::external_body]
fn ascii_to_string(b: Vec<u8>) -> (r: String)
    requires
        forall|i: int| 0 <= i < b@.len() ==> b@[i] < 128,
    ensures
        r@ == b@.map_values(|x: u8| x as char),
{
    match String::from_utf8(b) {
        Ok(s) => s,
        Err(_) => String::new(),
    }
}

/// Appends the hex digits of `n`, most significant first.
fn push_hex_digits(out: &mut Vec<u8>, n: u32)
    ensures
        final(out)@.map_values(|x: u8| x as char) == old(out)@.map_values(|x: u8| x as char)
            + hex_digits(n as nat),
        final(out)@.len() >= old(out)@.len(),
        (forall|i: int| 0 <= i < old(out)@.len() ==> final(out)@[i] == old(out)@[i]),
        forall|i: int| old(out)@.len() <= i < final(out)@.len() ==> final(out)@[i] < 128,
    decreases n,
{
    if n == 0 {
        proof {
            assert(old(out)@.map_values(|x: u8| x as char) + hex_digits(0) =~= old(out)@.map_values(
                |x: u8| x as char,
            ));
        }
        return ;
    }
    push_hex_digits(out, n / 16);
    let d: u8 = (n % 16) as u8;
    let byte: u8 = if d < 10 {
        48 + d
    } else {
        87 + d
    };
    let ghost pre = out@;
    out.push(byte);
    proof {
        assert(byte as char == hex_digit((n % 16) as int));
        assert(out@.map_values(|x: u8| x as char) =~= pre.map_values(|x: u8| x as char).push(
            byte as char,
        ));
        assert(pre.map_values(|x: u8| x as char).push(hex_digit((n % 16) as int)) =~= old(
            out,
        )@.map_values(|x: u8| x as char) + hex_digits((n / 16) as nat).push(
            hex_digit((n % 16) as int),
        ));
    }
}

/// Appends the code point escape of format `{:04x}`: lowercase hex,
/// zero-padded to at least four digits.
fn push_hex4(out: &mut Vec<u8>, u: u32)
    ensures
        final(out)@.map_values(|x: u8| x as char) == old(out)@.map_values(|x: u8| x as char) + hex4(
            u as nat,
        ),
        final(out)@.len() >= old(out)@.len(),
        (forall|i: int| 0 <= i < old(out)@.len() ==> final(out)@[i] == old(out)@[i]),
        forall|i: int| old(out)@.len() <= i < final(out)@.len() ==> final(out)@[i] < 128,
{
    let pad: usize = if u == 0 {
        4
    } else if u < 0x10 {
        3
    } else if u < 0x100 {
        2
    } else if u < 0x1000 {
        1
    } else {
        0
    };
    proof {
        reveal_with_fuel(hex_digits, 6);
        if u == 0 {
            assert(hex_digits(u as nat).len() == 0);
        } else if u < 0x10 {
            assert(u as nat / 16 == 0);
            assert(hex_digits(u as nat).len() == 1);
        } else if u < 0x100 {
            assert(0 < u as nat / 16 < 0x10);
            assert(hex_digits(u as nat).len() == 2);
        } else if u < 0x1000 {
            assert(0 < u as nat / 16 / 16 < 0x10);
            assert(hex_digits(u as nat).len() == 3);
        } else {
            assert(u as nat / 16 / 16 / 16 > 0);
            assert(hex_digits(u as nat).len() >= 4);
        }
        assert(4 - hex_digits(u as nat).len() <= pad as int);
    }
    let ghost base = out@;
    let mut k: usize = 0;
    while k < pad
        invariant
            0 <= k <= pad,
            out@.len() == base.len() + k,
            out@.map_values(|x: u8| x as char) == base.map_values(|x: u8| x as char) + zeros(
                k as int,
            ),
            forall|i: int| 0 <= i < base.len() ==> out@[i] == base[i],
            forall|i: int| base.len() <= i < out@.len() ==> out@[i] < 128,
        decreases pad - k,
    {
        let ghost pre = out@;
        out.push(48);
        proof {
            assert(out@.map_values(|x: u8| x as char) =~= pre.map_values(|x: u8| x as char).push(
                '0',
            ));
            assert(base.map_values(|x: u8| x as char) + zeros(k as int + 1) =~= (base.map_values(
                |x: u8| x as char,
            ) + zeros(k as int)).push('0'));
        }
        k += 1;
    }
    push_hex_digits(out, u);
    proof {
        assert(pad as int == 4 - hex_digits(u as nat).len() || hex_digits(u as nat).len() >= 4);
        if hex_digits(u as nat).len() >= 4 {
            assert(zeros(4 - hex_digits(u as nat).len()) =~= Seq::<char>::empty());
            assert(zeros(0) =~= Seq::<char>::empty());
        }
        assert(out@.map_values(|x: u8| x as char) =~= base.map_values(|x: u8| x as char) + hex4(
            u as nat,
        ));
    }
}

/// Derives the storage-table identifier for a container name: ASCII
/// alphanumerics, `_`, `-` and `.` pass through, every other character is
/// replaced by its four-hex-digit code point escape, and the result is
/// prefixed with `c_`. The derivation is pure and deterministic.
pub fn get_table_name(container: &str) -> (r: String)
    ensures
        r@ == spec_table_name(container@),
{
    let mut out: Vec<u8> = Vec::new();
    out.push(99);
    out.push(95);
    proof {
        assert(out@.map_values(|x: u8| x as char) =~= seq!['c', '_']);
        assert(seq!['c', '_'] + table_name_chars(container@.subrange(0, 0)) =~= seq!['c', '_']);
    }
    let len = container.unicode_len();
    let mut i: usize = 0;
    while i < len
        invariant
            len == container@.len(),
            0 <= i <= len,
            out@.map_values(|x: u8| x as char) == seq!['c', '_'] + table_name_chars(
                container@.subrange(0, i as int),
            ),
            forall|j: int| 0 <= j < out@.len() ==> out@[j] < 128,
        decreases len - i,
    {
        let c = container.get_char(i);
        let u = c as u32;
        let ghost prefix = container@.subrange(0, i as int);
        proof {
            assert(container@.subrange(0, i as int + 1).drop_last() =~= prefix);
            assert(container@.subrange(0, i as int + 1).last() == c);
        }
        if (97 <= u && u <= 122) || (65 <= u && u <= 90) || (48 <= u && u <= 57) || u == 95 || u
            == 45 || u == 46 {
            let ghost pre = out@;
            out.push(u as u8);
            proof {
                assert((u as u8) as char == c);
                assert(out@.map_values(|x: u8| x as char) =~= pre.map_values(|x: u8| x as char)
                    + seq![c]);
            }
        } else {
            push_hex4(&mut out, u);
        }
        i += 1;
    }
    proof {
        assert(container@.subrange(0, len as int) =~= container@);
    }
    ascii_to_string(out)
}

/// One container's metadata: a free-form description and the ordered list
/// of directories indexed into it.
pub struct ContainerInfo {
    pub description: String,
    pub indexed_paths: Vec<String>,
}

impl ContainerInfo {
    /// The directories as character sequences, in order.
    pub open spec fn paths(&self) -> Seq<Seq<char>> {
        self.indexed_paths@.map_values(|s: String| s@)
    }

    /// Records a directory as indexed into this container, once: a
    /// directory already present is not added again.
    pub fn record_path(&mut self, dir: String)
        ensures
            final(self).description@ == old(self).description@,
            final(self).paths() == (if old(self).paths().contains(dir@) {
                old(self).paths()
            } else {
                old(self).paths().push(dir@)
            }),
    {
        let mut i: usize = 0;
        while i < self.indexed_paths.len()
            invariant
                0 <= i <= self.indexed_paths@.len(),
                forall|j: int| 0 <= j < i ==> self.paths()[j] != dir@,
                self == old(self),
            decreases self.indexed_paths@.len() - i,
        {
            if str_eq(self.indexed_paths[i].as_str(), dir.as_str()) {
                proof {
                    assert(old(self).paths()[i as int] == dir@);
                }
                return ;
            }
            i += 1;
        }
        proof {
            assert(!old(self).paths().contains(dir@));
        }
        let ghost pre = self.indexed_paths@;
        self.indexed_paths.push(dir);
        proof {
            assert(self.paths() =~= pre.map_values(|s: String| s@).push(
                self.indexed_paths@.last()@,
            ));
        }
    }
}

/// The errors of container bookkeeping, each reported to the surrounding
/// application as a fixed human-readable message.
#[derive(Clone, Copy, Debug, PartialEq, Eq)]
pub enum ContainerError {
    AlreadyExists,
    ProtectedDeletion,
    UnknownContainer,
}

impl ContainerError {
    /// The message shown for this error at the operation boundary.
    pub fn message(&self) -> (m: String)
        ensures
            self is AlreadyExists ==> m@ == "Container already exists"@,
            self is ProtectedDeletion ==> m@ == "Cannot delete Default container"@,
            self is UnknownContainer ==> m@ == "Container does not exist"@,
    {
        match self {
            ContainerError::AlreadyExists => String::from_str("Container already exists"),
            ContainerError::ProtectedDeletion => String::from_str(
                "Cannot delete Default container",
            ),
            ContainerError::UnknownContainer => String::from_str("Container does not exist"),
        }
    }
}

/// The persisted configuration: the embedding-model selector, the named
/// containers as an association list with unique names, and the name of the
/// container that search and indexing currently target.
pub struct Config {
    pub embedding_model: String,
    pub containers: Vec<(String, ContainerInfo)>,
    pub active_container: String,
}

impl Config {
    /// The container names, in registration order.
    pub open spec fn names(&self) -> Seq<Seq<char>> {
        self.containers@.map_values(|p: (String, ContainerInfo)| p.0@)
    }

    pub open spec fn has_name(&self, n: Seq<char>) -> bool {
        self.names().contains(n)
    }

    /// Well-formed: container names are unique, the reserved "Default"
    /// container exists, and the active name is registered.
    pub open spec fn wf(&self) -> bool {
        &&& (forall|i: int, j: int|
            0 <= i < j < self.names().len() ==> self.names()[i] != self.names()[j])
        &&& self.has_name("Default"@)
        &&& self.has_name(self.active_container@)
    }

    /// The position of a container name, when registered.
    pub fn find(&self, name: &str) -> (r: Option<usize>)
        ensures
            r matches Some(i) ==> i < self.containers@.len() && self.names()[i as int] == name@,
            r is None ==> !self.has_name(name@),
    {
        let mut i: usize = 0;
        while i < self.containers.len()
            invariant
                0 <= i <= self.containers@.len(),
                forall|j: int| 0 <= j < i ==> self.names()[j] != name@,
            decreases self.containers@.len() - i,
        {
            if str_eq(self.containers[i].0.as_str(), name) {
                return Some(i);
            }
            i += 1;
        }
        None
    }

    /// Registers a new container with an empty directory list; a name
    /// already registered is rejected and nothing changes.
    pub fn create_container(&mut self, name: String, description: String) -> (r: Result<
        (),
        ContainerError,
    >)
        requires
            old(self).wf(),
        ensures
            final(self).wf(),
            final(self).embedding_model@ == old(self).embedding_model@,
            final(self).active_container@ == old(self).active_container@,
            old(self).has_name(name@) ==> r == Result::<(), ContainerError>::Err(
                ContainerError::AlreadyExists,
            ) && *final(self) == *old(self),
            !old(self).has_name(name@) ==> {
                let added = final(self).containers@.last();
                &&& r is Ok
                &&& final(self).names() == old(self).names().push(name@)
                &&& added.1.description@ == description@
                &&& added.1.paths().len() == 0
                &&& (forall|i: int|
                    0 <= i < old(self).containers@.len() ==> final(self).containers@[i] == old(
                        self,
                    ).containers@[i])
            },
    {
        match self.find(name.as_str()) {
            Some(_) => Err(ContainerError::AlreadyExists),
            None => {
                let ghost pre = self.containers@;
                self.containers.push(
                    (name, ContainerInfo { description, indexed_paths: Vec::new() }),
                );
                proof {
                    assert(self.names() =~= pre.map_values(|p: (String, ContainerInfo)| p.0@).push(
                        self.containers@.last().0@,
                    ));
                    assert(self.has_name("Default"@)) by {
                        let k = choose|k: int|
                            0 <= k < old(self).names().len() && old(self).names()[k] == "Default"@;
                        assert(self.names()[k] == "Default"@);
                    }
                    assert(self.has_name(self.active_container@)) by {
                        let k = choose|k: int|
                            0 <= k < old(self).names().len() && old(self).names()[k] == old(
                                self,
                            ).active_container@;
                        assert(self.names()[k] == self.active_container@);
                    }
                }
                Ok(())
            },
        }
    }

    /// Activates a registered container; an unknown name is rejected and
    /// nothing changes.
    pub fn set_active_container(&mut self, name: String) -> (r: Result<(), ContainerError>)
        requires
            old(self).wf(),
        ensures
            final(self).wf(),
            final(self).embedding_model@ == old(self).embedding_model@,
            final(self).containers == old(self).containers,
            old(self).has_name(name@) ==> r is Ok && final(self).active_container@ == name@,
            !old(self).has_name(name@) ==> r == Result::<(), ContainerError>::Err(
                ContainerError::UnknownContainer,
            ) && *final(self) == *old(self),
    {
        match self.find(name.as_str()) {
            Some(_) => {
                self.active_container = name;
                Ok(())
            },
            None => Err(ContainerError::UnknownContainer),
        }
    }

    /// Removes a container: the reserved "Default" container cannot be
    /// deleted, and deleting the active container first falls activation
    /// back to "Default". Removing a name that is not registered is not an
    /// error.
    pub fn delete_container(&mut self, name: &str) -> (r: Result<(), ContainerError>)
        requires
            old(self).wf(),
        ensures
            final(self).wf(),
            final(self).embedding_model@ == old(self).embedding_model@,
            name@ == "Default"@ ==> r == Result::<(), ContainerError>::Err(
                ContainerError::ProtectedDeletion,
            ) && *final(self) == *old(self),
            name@ != "Default"@ ==> {
                &&& r is Ok
                &&& !final(self).has_name(name@)
                &&& (forall|n: Seq<char>|
                    n != name@ ==> final(self).has_name(n) == old(self).has_name(n))
                &&& final(self).active_container@ == (if old(self).active_container@ == name@ {
                    "Default"@
                } else {
                    old(self).active_container@
                })
            },
    {
        if str_eq(name, "Default") {
            return Err(ContainerError::ProtectedDeletion);
        }
        if str_eq(self.active_container.as_str(), name) {
            self.active_container = String::from_str("Default");
        }
        match self.find(name) {
            Some(i) => {
                let ghost pre = self.names();
                let ghost gi = i as int;
                self.containers.remove(i);
                proof {
                    assert(self.names() =~= pre.remove(gi));
                    assert forall|n: Seq<char>| n != name@ implies self.has_name(n) == old(
                        self,
                    ).has_name(n) by {
                        if old(self).has_name(n) {
                            let k = choose|k: int|
                                0 <= k < pre.len() && pre[k] == n;
                            if k < gi {
                                assert(self.names()[k] == n);
                            } else {
                                assert(pre[k] != name@ && pre[gi] == name@);
                                assert(self.names()[k - 1] == n);
                            }
                        }
                        if self.has_name(n) {
                            let k = choose|k: int|
                                0 <= k < self.names().len() && self.names()[k] == n;
                            if k < gi {
                                assert(pre[k] == n);
                            } else {
                                assert(pre[k + 1] == n);
                            }
                        }
                    }
                    assert(!self.has_name(name@)) by {
                        if self.has_name(name@) {
                            let k = choose|k: int|
                                0 <= k < self.names().len() && self.names()[k] == name@;
                            if k < gi {
                                assert(pre[k] == name@ && pre[gi] == name@);
                            } else {
                                assert(pre[k + 1] == name@ && pre[gi] == name@);
                            }
                        }
                    }
                    assert forall|a: int, b: int|
                        0 <= a < b < self.names().len() implies self.names()[a] != self.names()[b]
                    by {
                        let pa = if a < gi {
                            a
                        } else {
                            a + 1
                        };
                        let pb = if b < gi {
                            b
                        } else {
                            b + 1
                        };
                        assert(self.names()[a] == pre[pa] && self.names()[b] == pre[pb]);
                    }
                    assert(self.has_name("Default"@));
                    assert(self.has_name(self.active_container@));
                }
                Ok(())
            },
            None => {
                Ok(())
            },
        }
    }
}

impl Default for Config {
    /// The initial configuration: the multilingual base embedding model and
    /// a single empty "Default" container, active.
    fn default() -> (c: Config)
        ensures
            c.wf(),
            c.embedding_model@ == "MultilingualE5Base"@,
            c.active_container@ == "Default"@,
            c.names() == seq!["Default"@],
            c.containers@[0].1.description@.len() == 0,
            c.containers@[0].1.paths().len() == 0,
    {
        let mut containers: Vec<(String, ContainerInfo)> = Vec::new();
        containers.push(
            (
                String::from_str("Default"),
                ContainerInfo { description: String::new(), indexed_paths: Vec::new() },
            ),
        );
        let c = Config {
            embedding_model: String::from_str("MultilingualE5Base"),
            containers,
            active_container: String::from_str("Default"),
        };
        proof {
            assert(c.names() =~= seq!["Default"@]);
            assert(c.names()[0] == "Default"@);
        }
        c
    }
}

} // verus!
