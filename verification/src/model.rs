//! The data model: a single password entry and (further below) the store
//! that maps titles to entries.

use vstd::prelude::*;

use crate::b64::{b64_decode, b64_decode_of, b64_encode, b64_of};
use crate::codec::chars_to_string;
use crate::common;
use crate::common::xsalsa20_of;
use crate::errors::ChaosError;

verus! {

/// The ghost shape of an entry: the four fields as mathematical values.
pub ghost struct PasswordView {
    pub salt: Seq<char>,
    pub meat: Seq<char>,
    pub text: Seq<char>,
    pub format: u8,
}

/// One managed credential's metadata.  `salt` and `meat` hold base64 text;
/// the meat's length (not its content) fixes the derived password's length;
/// `text` is a free-form annotation that never reaches derivation; `format`
/// selects the output alphabet.
#[derive(Debug)]
pub struct Password {
    pub salt: String,
    pub meat: String,
    pub text: String,
    pub format: u8,
}

impl View for Password {
    type V = PasswordView;

    open spec fn view(&self) -> PasswordView {
        PasswordView {
            salt: self.salt@,
            meat: self.meat@,
            text: self.text@,
            format: self.format,
        }
    }
}

impl Clone for Password {
    fn clone(&self) -> (r: Password)
        ensures
            r@ == self@,
    {
        Password {
            salt: self.salt.clone(),
            meat: self.meat.clone(),
            text: self.text.clone(),
            format: self.format,
        }
    }
}

impl PartialEq for Password {
    fn eq(&self, other: &Password) -> (r: bool)
        ensures
            r == (self@ =~= other@),
    {
        self.salt == other.salt && self.meat == other.meat && self.text == other.text
            && self.format == other.format
    }
}

impl vstd::std_specs::cmp::PartialEqSpecImpl for Password {
    open spec fn obeys_eq_spec() -> bool {
        true
    }

    open spec fn eq_spec(&self, other: &Password) -> bool {
        self@ =~= other@
    }
}

impl Default for Password {
    /// An empty entry: blank salt, meat and text, and the richest format.
    fn default() -> (r: Password)
        ensures
            r@.salt.len() == 0,
            r@.meat.len() == 0,
            r@.text.len() == 0,
            r@.format == 1,
    {
        Password { salt: String::new(), meat: String::new(), text: String::new(), format: 1 }
    }
}

/// The format codes the packer understands.
pub open spec fn format_is_known(format: u8) -> bool {
    1 <= format <= 5
}

/// The output alphabet that a format code selects.
pub open spec fn alphabet(format: u8) -> Seq<char> {
    if format == 1 {
        "!\"#$%&'()*+,-./0123456789:;<=>?@ABCDEFGHIJKLMNOPQRSTUVWXYZ[\\]^_`abcdefghijklmnopqrstuvwxyz{|}~"@
    } else if format == 2 {
        "abcdefghijklmnopqrstuvwxyzABCDEFGHIJKLMNOPQRSTUVWXYZ0123456789"@
    } else if format == 3 {
        "abcdefghijklmnopqrstuvwxyzABCDEFGHIJKLMNOPQRSTUVWXYZ"@
    } else if format == 4 {
        "0123456789"@
    } else {
        "01"@
    }
}

/// Byte-to-character packing: every byte of `bytes` becomes the character
/// of `alpha` at index byte-value modulo alphabet size.
pub open spec fn spec_pack(alpha: Seq<char>, bytes: Seq<u8>) -> Seq<char> {
    Seq::new(bytes.len(), |i: int| alpha[(bytes[i] as int) % (alpha.len() as int)])
}

/// Pack a raw byte stream into printable text over `allowed_chars`.
fn pack(allowed_chars: &str, hash: &[u8]) -> (r: String)
    requires
        allowed_chars@.len() > 0,
    ensures
        r@ == spec_pack(allowed_chars@, hash@),
{
    let source_len = allowed_chars.unicode_len();
    let mut out: Vec<char> = Vec::new();
    let mut i: usize = 0;
    while i < hash.len()
        invariant
            i <= hash@.len(),
            source_len == allowed_chars@.len(),
            source_len > 0,
            out@ == spec_pack(allowed_chars@, hash@).take(i as int),
        decreases hash@.len() - i,
    {
        let n = (hash[i] as usize) % source_len;
        out.push(allowed_chars.get_char(n));
        proof {
            assert(spec_pack(allowed_chars@, hash@).take(i + 1 as int) =~= spec_pack(
                allowed_chars@,
                hash@,
            ).take(i as int).push(allowed_chars@[(hash@[i as int] as int) % (
            allowed_chars@.len() as int)]));
        }
        i = i + 1;
    }
    proof {
        assert(spec_pack(allowed_chars@, hash@).take(hash@.len() as int) =~= spec_pack(
            allowed_chars@,
            hash@,
        ));
    }
    chars_to_string(&out)
}

/// The visible password of an entry for the raw stream `bytes`: the packed
/// text, truncated to the byte length of the stored meat (a shorter packed
/// text is returned whole).
pub open spec fn spec_cut(pv: PasswordView, bytes: Seq<u8>) -> Seq<char> {
    let visible = vstd::utf8::encode_utf8(pv.meat).len() as int;
    let packed = spec_pack(alphabet(pv.format), bytes);
    if visible < packed.len() {
        packed.take(visible)
    } else {
        packed
    }
}

impl Password {
    /// Pack a raw byte stream with this entry's format.
    fn pack_into_password(&self, hash: &[u8]) -> (r: String)
        requires
            format_is_known(self@.format),
        ensures
            r@ == spec_pack(alphabet(self@.format), hash@),
    {
        proof {
            reveal_strlit(
                "!\"#$%&'()*+,-./0123456789:;<=>?@ABCDEFGHIJKLMNOPQRSTUVWXYZ[\\]^_`abcdefghijklmnopqrstuvwxyz{|}~",
            );
            reveal_strlit("abcdefghijklmnopqrstuvwxyzABCDEFGHIJKLMNOPQRSTUVWXYZ0123456789");
            reveal_strlit("abcdefghijklmnopqrstuvwxyzABCDEFGHIJKLMNOPQRSTUVWXYZ");
            reveal_strlit("0123456789");
            reveal_strlit("01");
        }
        match self.format {
            1 => pack(
                "!\"#$%&'()*+,-./0123456789:;<=>?@ABCDEFGHIJKLMNOPQRSTUVWXYZ[\\]^_`abcdefghijklmnopqrstuvwxyz{|}~",
                hash,
            ),
            2 => pack("abcdefghijklmnopqrstuvwxyzABCDEFGHIJKLMNOPQRSTUVWXYZ0123456789", hash),
            3 => pack("abcdefghijklmnopqrstuvwxyzABCDEFGHIJKLMNOPQRSTUVWXYZ", hash),
            4 => pack("0123456789", hash),
            _ => pack("01", hash),
        }
    }

    /// Cut the packed password down to the meat's byte length.
    pub fn cut(&self, pass: &[u8]) -> (r: String)
        requires
            format_is_known(self@.format),
        ensures
            r@ == spec_cut(self@, pass@),
    {
        let packed = self.pack_into_password(pass);
        let visible = self.meat.as_str().as_bytes().len();
        let plen = pass.len();
        let k = if visible < plen {
            visible
        } else {
            plen
        };
        let front = packed.as_str().substring_char(0, k);
        proof {
            assert(front@ =~= spec_cut(self@, pass@));
        }
        front.to_owned()
    }

    /// A freshly created entry: the given salt and meat stored as base64,
    /// an empty annotation, and the chosen format.
    pub fn new_entry(salt: &[u8], meat: &[u8], format: u8) -> (r: Password)
        ensures
            r@.salt == b64_of(salt@),
            r@.meat == b64_of(meat@),
            r@.text.len() == 0,
            r@.format == format,
            b64_decode_of(r@.salt) == Some(salt@),
            b64_decode_of(r@.meat) == Some(meat@),
            r@.meat.len() == 4 * ((meat@.len() + 2) / 3),
    {
        Password {
            salt: b64_encode(salt),
            meat: b64_encode(meat),
            text: String::new(),
            format,
        }
    }

    /// The outcome of deriving this entry's password under `key`: either
    /// the visible password text, or the first reason the derivation must
    /// abort, checked in this order: the stored meat must decode, the
    /// stored salt must decode, the key must be 32 bytes, the decoded salt
    /// must be 24 bytes, and the format must be known.
    pub open spec fn spec_derive_outcome(key: Seq<u8>, pv: PasswordView) -> Result<
        Seq<char>,
        ChaosError,
    > {
        if b64_decode_of(pv.meat) is None {
            Err(ChaosError::Base64DecodeFailure)
        } else if b64_decode_of(pv.salt) is None {
            Err(ChaosError::Base64DecodeFailure)
        } else {
            let meat_bytes = b64_decode_of(pv.meat)->Some_0;
            let salt_bytes = b64_decode_of(pv.salt)->Some_0;
            if key.len() != common::KEY_LENGTH {
                Err(ChaosError::InvalidKeyLength)
            } else if salt_bytes.len() != common::SALT_LENGTH {
                Err(ChaosError::InvalidNonceLength)
            } else if !format_is_known(pv.format) {
                Err(ChaosError::UnknownFormat)
            } else {
                Ok(spec_cut(pv, xsalsa20_of(key, salt_bytes, meat_bytes)))
            }
        }
    }

    /// Derive the visible password of this entry under the master key:
    /// decode the stored salt and meat, run the stream cipher, pack and
    /// cut.  A malformed entry aborts with the error that
    /// [`Self::spec_derive_outcome`] fixes; it never silently produces a
    /// degraded password.
    pub fn derive_password(&self, key: &[u8]) -> (r: Result<String, ChaosError>)
        ensures
            match Self::spec_derive_outcome(key@, self@) {
                Ok(text) => r matches Ok(s) && s@ == text,
                Err(e) => r == Err::<String, ChaosError>(e),
            },
            r matches Ok(s) ==> s@.len() == b64_decode_of(self@.meat)->Some_0.len(),
            r matches Ok(s) ==> forall|i: int|
                0 <= i < s@.len() ==> alphabet(self@.format).contains(#[trigger] s@[i]),
    {
        let meat_bytes = match b64_decode(self.meat.as_str()) {
            Some(bytes) => bytes,
            None => {
                return Err(ChaosError::Base64DecodeFailure);
            },
        };
        let salt_bytes = match b64_decode(self.salt.as_str()) {
            Some(bytes) => bytes,
            None => {
                return Err(ChaosError::Base64DecodeFailure);
            },
        };
        let stream = match common::derive(key, meat_bytes.as_slice(), salt_bytes.as_slice()) {
            Ok(stream) => stream,
            Err(e) => {
                return Err(e);
            },
        };
        if !(1 <= self.format && self.format <= 5) {
            return Err(ChaosError::UnknownFormat);
        }
        proof {
            lemma_cut_wellformed(self@, stream@);
        }
        Ok(self.cut(stream.as_slice()))
    }
}

/// The ghost shape of a store: the titled entries, in insertion order.
pub type StoreView = Seq<(Seq<char>, PasswordView)>;

/// The first position holding `title`, or `-1` when the store has none.
pub open spec fn find_title(v: StoreView, title: Seq<char>) -> int
    decreases v.len(),
{
    if v.len() == 0 {
        -1
    } else if v[0].0 == title {
        0
    } else {
        let rest = find_title(v.drop_first(), title);
        if rest == -1 {
            -1
        } else {
            rest + 1
        }
    }
}

/// Does some entry carry `title`?
pub open spec fn has_title(v: StoreView, title: Seq<char>) -> bool {
    find_title(v, title) >= 0
}

/// The entry stored under `title`.
pub open spec fn lookup(v: StoreView, title: Seq<char>) -> PasswordView
    recommends
        has_title(v, title),
{
    v[find_title(v, title)].1
}

/// Store `pv` under `title`: overwrite in place when the title is present,
/// append otherwise.
pub open spec fn upsert(v: StoreView, title: Seq<char>, pv: PasswordView) -> StoreView {
    if has_title(v, title) {
        v.update(find_title(v, title), (title, pv))
    } else {
        v.push((title, pv))
    }
}

/// Drop the entry under `title`; a store without it stays as it is.
pub open spec fn remove_title(v: StoreView, title: Seq<char>) -> StoreView {
    if has_title(v, title) {
        v.remove(find_title(v, title))
    } else {
        v
    }
}

/// No two entries share a title.
pub open spec fn titles_unique(v: StoreView) -> bool {
    forall|i: int, j: int| 0 <= i < j < v.len() ==> v[i].0 != v[j].0
}

/// `find_title` is exactly the first position carrying the title: it stays
/// inside the store, it hits the title, nothing before it does, and `-1`
/// means no position does.
pub proof fn lemma_find_title(v: StoreView, title: Seq<char>)
    ensures
        -1 <= find_title(v, title) < v.len(),
        find_title(v, title) >= 0 ==> v[find_title(v, title)].0 == title,
        forall|j: int| 0 <= j < find_title(v, title) ==> v[j].0 != title,
        find_title(v, title) == -1 ==> forall|j: int| 0 <= j < v.len() ==> v[j].0 != title,
    decreases v.len(),
{
    if v.len() > 0 && v[0].0 != title {
        let rest = v.drop_first();
        lemma_find_title(rest, title);
        assert(forall|j: int| 0 <= j < rest.len() ==> rest[j] == v[j + 1]);
        let r = find_title(rest, title);
        if r == -1 {
            assert forall|j: int| 0 <= j < v.len() implies v[j].0 != title by {
                if j > 0 {
                    assert(rest[j - 1] == v[j]);
                }
            }
        } else {
            assert forall|j: int| 0 <= j < r + 1 implies v[j].0 != title by {
                if j > 0 {
                    assert(rest[j - 1] == v[j]);
                    assert(rest[j - 1].0 != title);
                }
            }
        }
    }
}

/// The position where an unbroken left-to-right search first meets the
/// title is `find_title`'s answer.
pub proof fn lemma_find_title_at(v: StoreView, title: Seq<char>, i: int)
    requires
        0 <= i < v.len(),
        v[i].0 == title,
        forall|j: int| 0 <= j < i ==> v[j].0 != title,
    ensures
        find_title(v, title) == i,
{
    lemma_find_title(v, title);
    let r = find_title(v, title);
    if r == -1 {
        assert(v[i].0 != title);
    } else if r < i {
        assert(v[r].0 != title);
    } else if r > i {
        assert(v[i].0 != title);
    }
}

/// A character sequence never takes fewer bytes than characters in UTF-8.
proof fn lemma_utf8_len(s: Seq<char>)
    ensures
        vstd::utf8::encode_utf8(s).len() >= s.len(),
    decreases s.len(),
{
    if s.len() > 0 {
        lemma_utf8_len(s.drop_first());
        assert(vstd::utf8::encode_scalar(s[0] as u32).len() >= 1);
    }
}

/// Derivation is deterministic: the stream the cipher returns is a
/// function of the key, the salt and the meat alone, so two calls of
/// [`generate_password`](crate::common::generate_password) on equal
/// inputs return byte-identical streams.
pub proof fn lemma_derive_deterministic(
    key1: Seq<u8>,
    salt1: Seq<u8>,
    meat1: Seq<u8>,
    key2: Seq<u8>,
    salt2: Seq<u8>,
    meat2: Seq<u8>,
)
    requires
        key1 == key2,
        salt1 == salt2,
        meat1 == meat2,
    ensures
        xsalsa20_of(key1, salt1, meat1) == xsalsa20_of(key2, salt2, meat2),
{
}

/// Cutting a stream no longer than the stored meat yields one character
/// per stream byte, each drawn from the format's alphabet.
pub proof fn lemma_cut_wellformed(pv: PasswordView, stream: Seq<u8>)
    requires
        format_is_known(pv.format),
        stream.len() <= pv.meat.len(),
    ensures
        spec_cut(pv, stream).len() == stream.len(),
        forall|i: int|
            0 <= i < stream.len() ==> alphabet(pv.format).contains(#[trigger] spec_cut(pv, stream)[i]),
{
    reveal_strlit(
        "!\"#$%&'()*+,-./0123456789:;<=>?@ABCDEFGHIJKLMNOPQRSTUVWXYZ[\\]^_`abcdefghijklmnopqrstuvwxyz{|}~",
    );
    reveal_strlit("abcdefghijklmnopqrstuvwxyzABCDEFGHIJKLMNOPQRSTUVWXYZ0123456789");
    reveal_strlit("abcdefghijklmnopqrstuvwxyzABCDEFGHIJKLMNOPQRSTUVWXYZ");
    reveal_strlit("0123456789");
    reveal_strlit("01");
    lemma_utf8_len(pv.meat);
    let alpha = alphabet(pv.format);
    assert(alpha.len() > 0);
    assert(spec_cut(pv, stream) == spec_pack(alpha, stream));
    assert forall|i: int| 0 <= i < stream.len() implies alpha.contains(
        #[trigger] spec_cut(pv, stream)[i],
    ) by {
        let j = (stream[i] as int) % (alpha.len() as int);
        assert(0 <= j < alpha.len());
        assert(spec_cut(pv, stream)[i] == alpha[j]);
    }
}

/// An upsert stores the new entry under the title and touches nothing
/// else: the title is present afterwards and looks up the new entry,
/// titles stay unique, and every other title keeps its presence and its
/// entry.
pub proof fn lemma_upsert_semantics(v: StoreView, title: Seq<char>, pv: PasswordView)
    requires
        titles_unique(v),
    ensures
        has_title(upsert(v, title, pv), title),
        lookup(upsert(v, title, pv), title) == pv,
        titles_unique(upsert(v, title, pv)),
        forall|t2: Seq<char>|
            t2 != title ==> has_title(upsert(v, title, pv), t2) == has_title(v, t2),
        forall|t2: Seq<char>|
            t2 != title && has_title(v, t2) ==> lookup(upsert(v, title, pv), t2) == lookup(v, t2),
{
    lemma_find_title(v, title);
    let w = upsert(v, title, pv);
    let i = find_title(v, title);
    if has_title(v, title) {
        assert(forall|k: int| 0 <= k < v.len() && k != i ==> w[k] == v[k]);
        lemma_find_title_at(w, title, i);
    } else {
        lemma_find_title_at(w, title, v.len() as int);
    }
    assert(titles_unique(w)) by {
        assert forall|a: int, b: int| 0 <= a < b < w.len() implies w[a].0 != w[b].0 by {
            if b < v.len() {
                assert(w[a].0 == v[a].0 || w[a].0 == title);
                assert(w[b].0 == v[b].0 || w[b].0 == title);
            } else {
                assert(w[a].0 == v[a].0);
                assert(v[a].0 != title);
            }
        }
    }
    assert forall|t2: Seq<char>| t2 != title implies has_title(w, t2) == has_title(v, t2) && (
    has_title(v, t2) ==> lookup(w, t2) == lookup(v, t2)) by {
        lemma_find_title(v, t2);
        let j = find_title(v, t2);
        if j >= 0 {
            assert(w[j].0 == t2) by {
                if j == i {
                } else {
                }
            }
            assert(forall|k: int| 0 <= k < j ==> w[k].0 != t2);
            lemma_find_title_at(w, t2, j);
        } else {
            assert(forall|k: int| 0 <= k < w.len() ==> w[k].0 != t2);
            lemma_find_title(w, t2);
            if has_title(w, t2) {
                assert(w[find_title(w, t2)].0 == t2);
            }
        }
    }
}

/// Removing a title leaves a store without it and touches nothing else.
pub proof fn lemma_remove_semantics(v: StoreView, title: Seq<char>)
    requires
        titles_unique(v),
    ensures
        !has_title(remove_title(v, title), title),
        titles_unique(remove_title(v, title)),
        forall|t2: Seq<char>|
            t2 != title ==> has_title(remove_title(v, title), t2) == has_title(v, t2),
        forall|t2: Seq<char>|
            t2 != title && has_title(v, t2) ==> lookup(remove_title(v, title), t2) == lookup(
                v,
                t2,
            ),
{
    lemma_find_title(v, title);
    let w = remove_title(v, title);
    let i = find_title(v, title);
    if i >= 0 {
        assert(forall|k: int| 0 <= k < i ==> w[k] == v[k]);
        assert(forall|k: int| i <= k < w.len() ==> w[k] == v[k + 1]);
        assert(titles_unique(w)) by {
            assert forall|a: int, b: int| 0 <= a < b < w.len() implies w[a].0 != w[b].0 by {
                let a0 = if a < i {
                    a
                } else {
                    a + 1
                };
                let b0 = if b < i {
                    b
                } else {
                    b + 1
                };
                assert(w[a].0 == v[a0].0);
                assert(w[b].0 == v[b0].0);
            }
        }
        assert(!has_title(w, title)) by {
            assert forall|k: int| 0 <= k < w.len() implies w[k].0 != title by {
                let k0 = if k < i {
                    k
                } else {
                    k + 1
                };
                assert(w[k].0 == v[k0].0);
                if k0 != i {
                    if v[k0].0 == title {
                        lemma_find_title_at(v, title, k0);
                    }
                }
            }
            lemma_find_title(w, title);
            if has_title(w, title) {
                assert(w[find_title(w, title)].0 == title);
            }
        }
        assert forall|t2: Seq<char>| t2 != title implies has_title(w, t2) == has_title(v, t2) && (
        has_title(v, t2) ==> lookup(w, t2) == lookup(v, t2)) by {
            lemma_find_title(v, t2);
            let j = find_title(v, t2);
            if j >= 0 {
                let j2 = if j < i {
                    j
                } else {
                    j - 1
                };
                assert(j != i);
                assert(w[j2].0 == t2);
                assert(forall|k: int| 0 <= k < j2 ==> w[k].0 != t2) by {
                    assert forall|k: int| 0 <= k < j2 implies w[k].0 != t2 by {
                        let k0 = if k < i {
                            k
                        } else {
                            k + 1
                        };
                        assert(w[k].0 == v[k0].0);
                    }
                }
                lemma_find_title_at(w, t2, j2);
                assert(w[j2].1 == v[j].1);
            } else {
                assert forall|k: int| 0 <= k < w.len() implies w[k].0 != t2 by {
                    let k0 = if k < i {
                        k
                    } else {
                        k + 1
                    };
                    assert(w[k].0 == v[k0].0);
                }
                lemma_find_title(w, t2);
                if has_title(w, t2) {
                    assert(w[find_title(w, t2)].0 == t2);
                }
            }
        }
    }
}

/// The root structure: every titled entry, with titles unique.
#[derive(Debug)]
pub struct Passwords {
    items: Vec<(String, Password)>,
}

/// The store view of a raw vector of titled entries.
pub(crate) open spec fn pairs_view(s: Seq<(String, Password)>) -> StoreView {
    Seq::new(s.len(), |i: int| (s[i].0@, s[i].1@))
}

impl View for Passwords {
    type V = StoreView;

    closed spec fn view(&self) -> StoreView {
        pairs_view(self.items@)
    }
}

impl Default for Passwords {
    /// The empty store.
    fn default() -> (r: Passwords)
        ensures
            r@ == Seq::<(Seq<char>, PasswordView)>::empty(),
    {
        let r = Passwords { items: Vec::new() };
        proof {
            assert(r@ =~= Seq::<(Seq<char>, PasswordView)>::empty());
        }
        r
    }
}

impl Passwords {
    #[verifier::type_invariant]
    spec fn wf(&self) -> bool {
        titles_unique(self@)
    }

    /// Does the title exist?
    pub fn title_exists(&self, title: &str) -> (r: bool)
        ensures
            r == has_title(self@, title@),
    {
        let n = self.items.len();
        let mut i: usize = 0;
        while i < n
            invariant
                i <= n,
                n == self@.len(),
                n == self.items@.len(),
                forall|j: int| 0 <= j < i ==> self@[j].0 != title@,
            decreases n - i,
        {
            if crate::codec::str_eq(self.items[i].0.as_str(), title) {
                proof {
                    lemma_find_title_at(self@, title@, i as int);
                }
                return true;
            }
            i = i + 1;
        }
        proof {
            lemma_find_title(self@, title@);
        }
        false
    }

    /// Store `password` under `title`: an unconditional upsert.  An
    /// existing title is overwritten in place, without error; a new title
    /// is appended.  Nothing else moves.
    pub fn insert(&mut self, title: &str, password: Password)
        ensures
            final(self)@ == upsert(old(self)@, title@, password@),
    {
        proof {
            use_type_invariant(&*self);
        }
        let ghost v0 = self@;
        let mut items: Vec<(String, Password)> = Vec::new();
        core::mem::swap(&mut items, &mut self.items);
        let n = items.len();
        let mut i: usize = 0;
        while i < n
            invariant
                i <= n,
                n == items@.len(),
                v0 == pairs_view(items@),
                v0 == old(self)@,
                titles_unique(v0),
                forall|j: int| 0 <= j < i ==> v0[j].0 != title@,
            decreases n - i,
        {
            if crate::codec::str_eq(items[i].0.as_str(), title) {
                proof {
                    lemma_find_title_at(v0, title@, i as int);
                }
                let ghost before = items@;
                items.remove(i);
                items.insert(i, (title.to_owned(), password));
                proof {
                    assert(items@ =~= before.update(i as int, items@[i as int]));
                    let v1 = pairs_view(items@);
                    assert(v1 =~= upsert(v0, title@, password@));
                    assert(titles_unique(v1)) by {
                        assert forall|a: int, b: int|
                            0 <= a < b < v1.len() implies v1[a].0 != v1[b].0 by {
                            assert(v1[a].0 == v0[a].0);
                            assert(v1[b].0 == v0[b].0);
                        }
                    }
                }
                self.items = items;
                return ;
            }
            i = i + 1;
        }
        proof {
            lemma_find_title(v0, title@);
        }
        items.push((title.to_owned(), password));
        proof {
            let v1 = pairs_view(items@);
            assert(v1 =~= upsert(v0, title@, password@));
            assert(titles_unique(v1)) by {
                assert forall|a: int, b: int| 0 <= a < b < v1.len() implies v1[a].0 != v1[b].0 by {
                    if b < v0.len() {
                        assert(v1[a].0 == v0[a].0);
                        assert(v1[b].0 == v0[b].0);
                    } else {
                        assert(v1[a].0 == v0[a].0);
                        assert(v0[a].0 != title@);
                    }
                }
            }
        }
        self.items = items;
    }

    /// Remove the entry under `title`; removing an absent title is a
    /// no-op, not an error.
    pub fn remove(&mut self, title: &str)
        ensures
            final(self)@ == remove_title(old(self)@, title@),
    {
        proof {
            use_type_invariant(&*self);
        }
        let ghost v0 = self@;
        let mut items: Vec<(String, Password)> = Vec::new();
        core::mem::swap(&mut items, &mut self.items);
        let n = items.len();
        let mut i: usize = 0;
        while i < n
            invariant
                i <= n,
                n == items@.len(),
                v0 == pairs_view(items@),
                v0 == old(self)@,
                titles_unique(v0),
                forall|j: int| 0 <= j < i ==> v0[j].0 != title@,
            decreases n - i,
        {
            if crate::codec::str_eq(items[i].0.as_str(), title) {
                proof {
                    lemma_find_title_at(v0, title@, i as int);
                }
                items.remove(i);
                proof {
                    let v1 = pairs_view(items@);
                    assert(v1 =~= remove_title(v0, title@));
                    assert(titles_unique(v1)) by {
                        assert forall|a: int, b: int|
                            0 <= a < b < v1.len() implies v1[a].0 != v1[b].0 by {
                            let a0 = if a < i as int { a } else { a + 1 };
                            let b0 = if b < i as int { b } else { b + 1 };
                            assert(v1[a].0 == v0[a0].0);
                            assert(v1[b].0 == v0[b0].0);
                        }
                    }
                }
                self.items = items;
                return ;
            }
            i = i + 1;
        }
        proof {
            lemma_find_title(v0, title@);
            assert(remove_title(v0, title@) == v0);
        }
        self.items = items;
    }

    /// The entry stored under `title`, or `TitleNotFound` when no entry
    /// carries it; the store itself is never touched.
    pub fn find_by_title_or_bail<'a>(&'a self, title: &str) -> (r: Result<&'a Password, ChaosError>)
        ensures
            has_title(self@, title@) ==> (r matches Ok(p) && p@ == lookup(self@, title@)),
            !has_title(self@, title@) ==> r == Err::<&'a Password, ChaosError>(
                ChaosError::TitleNotFound,
            ),
    {
        let n = self.items.len();
        let mut i: usize = 0;
        while i < n
            invariant
                i <= n,
                n == self@.len(),
                n == self.items@.len(),
                forall|j: int| 0 <= j < i ==> self@[j].0 != title@,
            decreases n - i,
        {
            if crate::codec::str_eq(self.items[i].0.as_str(), title) {
                proof {
                    lemma_find_title_at(self@, title@, i as int);
                }
                return Ok(&self.items[i].1);
            }
            i = i + 1;
        }
        proof {
            lemma_find_title(self@, title@);
        }
        Err(ChaosError::TitleNotFound)
    }

    /// Every title in the store, in storage order.
    pub fn titles(&self) -> (r: Vec<String>)
        ensures
            r@.len() == self@.len(),
            forall|i: int| 0 <= i < r@.len() ==> r@[i]@ == self@[i].0,
    {
        let n = self.items.len();
        let mut out: Vec<String> = Vec::new();
        let mut i: usize = 0;
        while i < n
            invariant
                i <= n,
                n == self@.len(),
                n == self.items@.len(),
                out@.len() == i,
                forall|j: int| 0 <= j < i ==> out@[j]@ == self@[j].0,
            decreases n - i,
        {
            out.push(self.items[i].0.clone());
            i = i + 1;
        }
        out
    }

    /// How many entries the store holds.
    pub fn len(&self) -> (r: usize)
        ensures
            r == self@.len(),
    {
        self.items.len()
    }

    /// The canonical, pretty-printed document of the store: one
    /// `passwords` object holding the entries in storage order, rendered
    /// the same way on every call.
    pub fn to_string_pretty(&self) -> (r: String)
        ensures
            r@ == crate::codec::canonical_doc(self@),
    {
        let mut out: Vec<char> = Vec::new();
        crate::codec::push_str_chars(&mut out, "{\n  \"passwords\": {");
        let n = self.items.len();
        if n == 0 {
            crate::codec::push_str_chars(&mut out, "}\n}");
            proof {
                assert(out@ =~= crate::codec::canonical_doc(self@));
            }
            return crate::codec::chars_to_string(&out);
        }
        out.push('\n');
        let ghost prefix = crate::codec::lit_head() + seq!['\n'];
        proof {
            assert(out@ =~= prefix + crate::codec::canonical_entries(self@.take(0)));
        }
        let mut i: usize = 0;
        while i < n
            invariant
                i <= n,
                n == self@.len(),
                n == self.items@.len(),
                n > 0,
                prefix == crate::codec::lit_head() + seq!['\n'],
                out@ == prefix + crate::codec::canonical_entries(self@.take(i as int)),
            decreases n - i,
        {
            if i > 0 {
                crate::codec::push_str_chars(&mut out, ",\n");
            }
            let pair = &self.items[i];
            crate::codec::emit_entry(&mut out, pair.0.as_str(), &pair.1);
            proof {
                crate::codec::lemma_entries_push(self@.take(i as int), self@[i as int]);
                assert(self@.take(i + 1 as int) =~= self@.take(i as int).push(self@[i as int]));
                assert(out@ =~= prefix + crate::codec::canonical_entries(self@.take(i + 1 as int)));
            }
            i = i + 1;
        }
        crate::codec::push_str_chars(&mut out, "\n  }\n}");
        proof {
            assert(self@.take(n as int) =~= self@);
            assert(out@ =~= crate::codec::canonical_doc(self@));
        }
        crate::codec::chars_to_string(&out)
    }

    /// Parse a document into a store.  Exactly the documents that
    /// [`crate::codec::sp_doc`] accepts yield a store; anything else is
    /// `MalformedStoreDocument`.
    pub fn parse_document(text: &str) -> (r: Result<Passwords, ChaosError>)
        ensures
            match crate::codec::sp_doc(text@) {
                Some(v) => r matches Ok(store) && store@ == v,
                None => r == Err::<Passwords, ChaosError>(ChaosError::MalformedStoreDocument),
            },
    {
        let chars = crate::codec::to_chars(text);
        match crate::codec::p_doc(&chars) {
            Some(items) => {
                proof {
                    crate::codec::lemma_sp_doc_unique(text@);
                }
                Ok(Passwords { items })
            },
            None => Err(ChaosError::MalformedStoreDocument),
        }
    }

    /// Load a store from its durable text: a well-formed document yields
    /// the store it describes, anything else the empty store, never an
    /// error — the tool stays available for new entries even when the
    /// durable state is damaged.
    pub fn load_from_str(text: &str) -> (r: Passwords)
        ensures
            r@ == crate::codec::spec_load(text@),
    {
        match Passwords::parse_document(text) {
            Ok(store) => store,
            Err(_) => Passwords::default(),
        }
    }
}

impl PartialEq for Passwords {
    fn eq(&self, other: &Passwords) -> (r: bool)
        ensures
            r == (self@ == other@),
    {
        let n = self.items.len();
        if n != other.items.len() {
            proof {
                assert(self@ != other@) by {
                    if self@ == other@ {
                        assert(self@.len() == other@.len());
                    }
                }
            }
            return false;
        }
        let mut i: usize = 0;
        while i < n
            invariant
                i <= n,
                n == self@.len(),
                n == self.items@.len(),
                n == other@.len(),
                n == other.items@.len(),
                forall|j: int| 0 <= j < i ==> self@[j] == other@[j],
            decreases n - i,
        {
            if !crate::codec::str_eq(self.items[i].0.as_str(), other.items[i].0.as_str()) {
                proof {
                    assert(self@ != other@) by {
                        if self@ == other@ {
                            assert(self@[i as int] == other@[i as int]);
                        }
                    }
                }
                return false;
            }
            if !(self.items[i].1 == other.items[i].1) {
                proof {
                    assert(self@ != other@) by {
                        if self@ == other@ {
                            assert(self@[i as int] == other@[i as int]);
                        }
                    }
                }
                return false;
            }
            proof {
                assert(self@[i as int].1 =~= other@[i as int].1);
                assert(self@[i as int] == other@[i as int]);
            }
            i = i + 1;
        }
        proof {
            assert(self@ =~= other@);
        }
        true
    }
}

impl vstd::std_specs::cmp::PartialEqSpecImpl for Passwords {
    open spec fn obeys_eq_spec() -> bool {
        true
    }

    open spec fn eq_spec(&self, other: &Passwords) -> bool {
        self@ == other@
    }
}

} // verus!
