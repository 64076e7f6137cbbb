use std::cmp::Ordering;
use vstd::prelude::*;
use vstd::std_specs::iter::IteratorSpec;
use vstd::string::StringSliceAdditionalSpecFns;

verus! {

broadcast use vstd::string::group_string_axioms;

/// A growable byte string that keeps its content length apart from the spare
/// room after it: the buffer holds `len` bytes of content, then `free` bytes
/// of room, and after `sdsclear` possibly bytes that are neither.
#[derive(Debug)]
pub struct SDS {
    len: usize,
    free: usize,
    buf: Vec<u8>,
}

/// `n` zero bytes.
pub open spec fn zeros(n: nat) -> Seq<u8> {
    Seq::new(n, |i: int| 0u8)
}

/// Lexicographic order of byte sequences, a proper prefix first.
pub open spec fn bytes_cmp(a: Seq<u8>, b: Seq<u8>) -> Ordering
    decreases a.len(),
{
    if a.len() == 0 {
        if b.len() == 0 {
            Ordering::Equal
        } else {
            Ordering::Less
        }
    } else if b.len() == 0 {
        Ordering::Greater
    } else if a[0] < b[0] {
        Ordering::Less
    } else if a[0] > b[0] {
        Ordering::Greater
    } else {
        bytes_cmp(a.drop_first(), b.drop_first())
    }
}

/// Whether the character with the code of byte `b` is in `cset`.
pub open spec fn in_set(b: u8, cset: Seq<char>) -> bool {
    cset.contains((b as u32) as char)
}

/// Whether `c` is one of the characters of `cset`.
fn char_in(cset: &str, c: char) -> (r: bool)
    ensures
        r == cset@.contains(c),
{
    let mut chars = cset.chars();
    let ghost k: int = 0;
    loop
        invariant
            0 <= k <= cset@.len(),
            chars.remaining() == cset@.subrange(k, cset@.len() as int),
            chars.obeys_prophetic_iter_laws(),
            forall|i: int| 0 <= i < k ==> cset@[i] != c,
        decreases cset@.len() - k,
    {
        match chars.next() {
            Some(d) => {
                assert(d == cset@[k]);
                if d == c {
                    assert(cset@[k] == c);
                    return true;
                }
                proof {
                    k = k + 1;
                }
            },
            None => {
                assert(k == cset@.len());
                return false;
            },
        }
    }
}

/// The room and the buffer after copying `bytes` over a string with content
/// length `len`, room `free` and buffer `buf`: a fresh buffer of `bytes`
/// and as many zeros when they do not fit, else `bytes` written in place
/// with a zero after them, if there is room for it, and the rest unchanged.
pub open spec fn cpy_result(len: nat, free: nat, buf: Seq<u8>, bytes: Seq<u8>, new_free: nat, new_buf: Seq<u8>) -> bool {
    let k = bytes.len();
    if len + free < k {
        new_free == k && new_buf == bytes + zeros(k)
    } else {
        &&& new_free == len + free - k
        &&& new_buf.len() == buf.len()
        &&& new_buf.subrange(0, k as int) == bytes
        &&& k < buf.len() ==> new_buf[k as int] == 0
        &&& forall|i: int| k < i < buf.len() ==> #[trigger] new_buf[i] == buf[i]
    }
}

/// Each byte read as the character with the same code.
pub open spec fn bytes_as_chars(b: Seq<u8>) -> Seq<char> {
    Seq::new(b.len(), |i: int| (b[i] as u32) as char)
}

/// Relies on `String::push`: appends one character.
#[verifier::external_body]
fn push_char(s: &mut String, c: char)
    ensures
        final(s)@ == old(s)@.push(c),
{
    s.push(c)
}

proof fn lemma_bytes_cmp_suffix(a: Seq<u8>, b: Seq<u8>, i: int)
    requires
        0 <= i <= a.len(),
        i <= b.len(),
        forall|j: int| 0 <= j < i ==> a[j] == b[j],
    ensures
        bytes_cmp(a, b) == bytes_cmp(a.subrange(i, a.len() as int), b.subrange(i, b.len() as int)),
    decreases i,
{
    if i > 0 {
        assert(a.drop_first().subrange(i - 1, a.len() - 1) =~= a.subrange(i, a.len() as int));
        assert(b.drop_first().subrange(i - 1, b.len() - 1) =~= b.subrange(i, b.len() as int));
        lemma_bytes_cmp_suffix(a.drop_first(), b.drop_first(), i - 1);
    } else {
        assert(a.subrange(0, a.len() as int) =~= a);
        assert(b.subrange(0, b.len() as int) =~= b);
    }
}

impl SDS {
    /// The content length.
    pub closed spec fn spec_len(&self) -> nat {
        self.len as nat
    }

    /// The spare room after the content.
    pub closed spec fn spec_free(&self) -> nat {
        self.free as nat
    }

    /// The whole buffer: content, then room.
    pub closed spec fn spec_buf(&self) -> Seq<u8> {
        self.buf@
    }

    /// The content.
    pub open spec fn content(&self) -> Seq<u8> {
        self.spec_buf().subrange(0, self.spec_len() as int)
    }

    /// The content and the room fit in the buffer. They fill it but after
    /// `sdsclear`, which keeps the buffer and only empties the content.
    pub closed spec fn wf(&self) -> bool {
        &&& self.len + self.free <= self.buf@.len()
        &&& self.len + self.free <= usize::MAX
    }

    /// In a well-formed string the content and the room fit in the buffer.
    pub proof fn lemma_wf(&self)
        requires
            self.wf(),
        ensures
            self.spec_len() + self.spec_free() <= self.spec_buf().len(),
    {
    }

    /// An empty string with no room.
    pub fn new() -> (r: SDS)
        ensures
            r.wf(),
            r.spec_len() == 0,
            r.spec_free() == 0,
            r.spec_buf() == Seq::<u8>::empty(),
    {
        SDS { len: 0, free: 0, buf: Vec::new() }
    }

    /// The whole buffer, each byte read as the character with its code.
    pub fn to_string(&self) -> (r: String)
        ensures
            r@ == bytes_as_chars(self.spec_buf()),
    {
        let mut out = String::new();
        let mut i: usize = 0;
        while i < self.buf.len()
            invariant
                i <= self.buf@.len(),
                out@ == bytes_as_chars(self.buf@.subrange(0, i as int)),
            decreases self.buf@.len() - i,
        {
            push_char(&mut out, self.buf[i] as char);
            i = i + 1;
            assert(out@ =~= bytes_as_chars(self.buf@.subrange(0, i as int)));
        }
        assert(self.buf@.subrange(0, i as int) =~= self.buf@);
        out
    }

    /// A string holding the bytes of `s`, with as much room again.
    pub fn sdsnew(s: &str) -> (r: SDS)
        requires
            s.spec_bytes().len() * 2 <= usize::MAX,
        ensures
            r.wf(),
            r.spec_len() == s.spec_bytes().len(),
            r.spec_free() == s.spec_bytes().len(),
            r.spec_buf() == s.spec_bytes() + zeros(s.spec_bytes().len()),
    {
        let bytes = s.as_bytes();
        let n = bytes.len();
        let mut buf: Vec<u8> = Vec::new();
        let mut i: usize = 0;
        while i < n
            invariant
                n == bytes@.len(),
                i <= n,
                buf@ == bytes@.subrange(0, i as int),
            decreases n - i,
        {
            buf.push(bytes[i]);
            i = i + 1;
            assert(buf@ =~= bytes@.subrange(0, i as int));
        }
        let mut j: usize = 0;
        while j < n
            invariant
                n == bytes@.len(),
                j <= n,
                buf@ == bytes@ + zeros(j as nat),
            decreases n - j,
        {
            buf.push(0u8);
            j = j + 1;
            assert(buf@ =~= bytes@ + zeros(j as nat));
        }
        assert(bytes@.subrange(0, n as int) =~= bytes@);
        SDS { len: n, free: n, buf }
    }

    /// The content length.
    pub fn sdslen(&self) -> (r: u64)
        ensures
            r == self.spec_len(),
    {
        self.len as u64
    }

    /// Whether the content is empty.
    pub fn sdsempty(&self) -> (r: bool)
        ensures
            r == (self.spec_len() == 0),
    {
        self.len == 0
    }

    /// Drops the content and the room.
    pub fn sdsfree(&mut self)
        ensures
            final(self).wf(),
            final(self).spec_len() == 0,
            final(self).spec_free() == 0,
            final(self).spec_buf() == Seq::<u8>::empty(),
    {
        self.len = 0;
        self.free = 0;
        self.buf.clear();
    }

    /// The spare room.
    pub fn sdsavail(&self) -> (r: u64)
        ensures
            r == self.spec_free(),
    {
        self.free as u64
    }

    /// A copy of the whole buffer.
    pub fn sdsbuf(&self) -> (r: Vec<u8>)
        ensures
            r@ == self.spec_buf(),
    {
        let mut out: Vec<u8> = Vec::new();
        let mut i: usize = 0;
        while i < self.buf.len()
            invariant
                i <= self.buf@.len(),
                out@ == self.buf@.subrange(0, i as int),
            decreases self.buf@.len() - i,
        {
            out.push(self.buf[i]);
            i = i + 1;
            assert(out@ =~= self.buf@.subrange(0, i as int));
        }
        assert(self.buf@.subrange(0, i as int) =~= self.buf@);
        out
    }

    /// A copy of this string.
    pub fn sdsdup(&self) -> (r: SDS)
        ensures
            r.wf() == self.wf(),
            r.spec_len() == self.spec_len(),
            r.spec_free() == self.spec_free(),
            r.spec_buf() == self.spec_buf(),
    {
        SDS { len: self.len, free: self.free, buf: self.sdsbuf() }
    }

    /// Empties the content, keeping the buffer and the room as they were;
    /// the first byte is zeroed.
    pub fn sdsclear(&mut self)
        requires
            old(self).wf(),
        ensures
            final(self).wf(),
            final(self).spec_len() == 0,
            final(self).spec_free() == old(self).spec_free(),
            final(self).spec_buf() == (if old(self).spec_buf().len() == 0 {
                old(self).spec_buf()
            } else {
                old(self).spec_buf().update(0, 0u8)
            }),
    {
        self.len = 0;
        if self.buf.len() > 0 {
            self.buf.set(0, 0u8);
        }
    }

    /// Appends `bytes` to the content, growing the buffer to twice the new
    /// length when the room is too small.
    fn cat_bytes(&mut self, bytes: &Vec<u8>)
        requires
            old(self).wf(),
            (old(self).spec_len() + bytes@.len()) * 2 <= usize::MAX,
        ensures
            final(self).wf(),
            final(self).spec_len() == old(self).spec_len() + bytes@.len(),
            final(self).content() == old(self).content() + bytes@,
            old(self).spec_free() < bytes@.len() ==> final(self).spec_free() == final(self).spec_len()
                && final(self).spec_buf() == final(self).content() + zeros(final(self).spec_len()),
            old(self).spec_free() >= bytes@.len() ==> final(self).spec_free() == old(self).spec_free() - bytes@.len()
                && final(self).spec_buf() == final(self).content() + old(self).spec_buf().subrange(
                final(self).spec_len() as int,
                old(self).spec_buf().len() as int,
            ),
    {
        let k = bytes.len();
        let n = self.len;
        let ghost old_buf = self.buf@;
        if self.free < k {
            let total = self.len + k;
            let mut nb: Vec<u8> = Vec::new();
            let mut i: usize = 0;
            while i < n
                invariant
                    n == self.len,
                    self.len == old(self).len,
                    self.free == old(self).free,
                    total == self.len + k,
                    self.buf@ == old_buf,
                    n <= old_buf.len(),
                    i <= n,
                    nb@ == old_buf.subrange(0, i as int),
                decreases n - i,
            {
                nb.push(self.buf[i]);
                i = i + 1;
                assert(nb@ =~= old_buf.subrange(0, i as int));
            }
            let mut j: usize = 0;
            while j < bytes.len()
                invariant
                    j <= bytes@.len(),
                    nb@ == old_buf.subrange(0, n as int) + bytes@.subrange(0, j as int),
                decreases bytes@.len() - j,
            {
                nb.push(bytes[j]);
                j = j + 1;
                assert(nb@ =~= old_buf.subrange(0, n as int) + bytes@.subrange(0, j as int));
            }
            assert(bytes@.subrange(0, j as int) =~= bytes@);
            let mut z: usize = 0;
            while z < total
                invariant
                    z <= total,
                    nb@ == old_buf.subrange(0, n as int) + bytes@ + zeros(z as nat),
                decreases total - z,
            {
                nb.push(0u8);
                z = z + 1;
                assert(nb@ =~= old_buf.subrange(0, n as int) + bytes@ + zeros(z as nat));
            }
            self.buf = nb;
            self.free = self.len + k;
            self.len = self.len + k;
            assert(self.buf@.subrange(0, self.len as int) =~= old_buf.subrange(0, n as int) + bytes@);
        } else {
            let mut j: usize = 0;
            while j < bytes.len()
                invariant
                    n == self.len,
                    self.len == old(self).len,
                    self.free == old(self).free,
                    self.buf@.len() == old_buf.len(),
                    self.len + self.free <= old_buf.len(),
                    self.len + self.free <= usize::MAX,
                    self.free >= bytes@.len(),
                    j <= bytes@.len(),
                    self.buf@ == old_buf.subrange(0, n as int) + bytes@.subrange(0, j as int) + old_buf.subrange(
                        n + j,
                        old_buf.len() as int,
                    ),
                decreases bytes@.len() - j,
            {
                self.buf.set(n + j, bytes[j]);
                j = j + 1;
                assert(self.buf@ =~= old_buf.subrange(0, n as int) + bytes@.subrange(0, j as int) + old_buf.subrange(
                    n + j,
                    old_buf.len() as int,
                ));
            }
            assert(bytes@.subrange(0, j as int) =~= bytes@);
            self.free = self.free - k;
            self.len = self.len + k;
            assert(self.buf@.subrange(0, self.len as int) =~= old_buf.subrange(0, n as int) + bytes@);
            assert(self.buf@ =~= self.buf@.subrange(0, self.len as int) + old_buf.subrange(
                self.len as int,
                old_buf.len() as int,
            ));
        }
    }

    /// Appends the bytes of `other`.
    pub fn sdscat(&mut self, other: &str)
        requires
            old(self).wf(),
            (old(self).spec_len() + other.spec_bytes().len()) * 2 <= usize::MAX,
        ensures
            final(self).wf(),
            final(self).spec_len() == old(self).spec_len() + other.spec_bytes().len(),
            final(self).content() == old(self).content() + other.spec_bytes(),
            old(self).spec_free() < other.spec_bytes().len() ==> final(self).spec_free() == final(self).spec_len()
                && final(self).spec_buf() == final(self).content() + zeros(final(self).spec_len()),
            old(self).spec_free() >= other.spec_bytes().len() ==> final(self).spec_free() == old(self).spec_free()
                - other.spec_bytes().len() && final(self).spec_buf() == final(self).content() + old(
                self,
            ).spec_buf().subrange(final(self).spec_len() as int, old(self).spec_buf().len() as int),
    {
        let bytes = s_bytes(other);
        self.cat_bytes(&bytes);
    }

    /// Appends the content of `other`.
    pub fn sdscatsds(&mut self, other: &SDS)
        requires
            old(self).wf(),
            other.wf(),
            (old(self).spec_len() + other.spec_len()) * 2 <= usize::MAX,
        ensures
            final(self).wf(),
            final(self).spec_len() == old(self).spec_len() + other.spec_len(),
            final(self).content() == old(self).content() + other.content(),
            old(self).spec_free() < other.spec_len() ==> final(self).spec_free() == final(self).spec_len()
                && final(self).spec_buf() == final(self).content() + zeros(final(self).spec_len()),
            old(self).spec_free() >= other.spec_len() ==> final(self).spec_free() == old(self).spec_free()
                - other.spec_len() && final(self).spec_buf() == final(self).content() + old(
                self,
            ).spec_buf().subrange(final(self).spec_len() as int, old(self).spec_buf().len() as int),
    {
        let mut bytes: Vec<u8> = Vec::new();
        let n = other.len;
        let mut i: usize = 0;
        while i < n
            invariant
                n == other.len,
                other.len + other.free <= other.buf@.len(),
                i <= n,
                bytes@ == other.buf@.subrange(0, i as int),
            decreases n - i,
        {
            bytes.push(other.buf[i]);
            i = i + 1;
            assert(bytes@ =~= other.buf@.subrange(0, i as int));
        }
        assert(bytes@ == other.content());
        self.cat_bytes(&bytes);
    }

    /// Replaces the content with `bytes`. When content and room together are
    /// too small, the buffer becomes `bytes` followed by as many zeros;
    /// otherwise it is written in place, and the byte after the new content,
    /// if any, is zeroed.
    fn cpy_bytes(&mut self, bytes: &Vec<u8>)
        requires
            old(self).wf(),
            old(self).spec_len() + old(self).spec_free() < bytes@.len() ==> bytes@.len() * 2 <= usize::MAX,
        ensures
            final(self).wf(),
            final(self).spec_len() == bytes@.len(),
            final(self).content() == bytes@,
            cpy_result(old(self).spec_len(), old(self).spec_free(), old(self).spec_buf(), bytes@,
                final(self).spec_free(), final(self).spec_buf()),
    {
        let k = bytes.len();
        if self.len + self.free < k {
            let mut nb: Vec<u8> = Vec::new();
            let mut j: usize = 0;
            while j < k
                invariant
                    k == bytes@.len(),
                    j <= k,
                    nb@ == bytes@.subrange(0, j as int),
                decreases k - j,
            {
                nb.push(bytes[j]);
                j = j + 1;
                assert(nb@ =~= bytes@.subrange(0, j as int));
            }
            let mut z: usize = 0;
            while z < k
                invariant
                    z <= k,
                    k == bytes@.len(),
                    nb@ == bytes@ + zeros(z as nat),
                decreases k - z,
            {
                nb.push(0u8);
                z = z + 1;
                assert(nb@ =~= bytes@ + zeros(z as nat));
            }
            assert(bytes@.subrange(0, k as int) =~= bytes@);
            self.buf = nb;
            self.len = k;
            self.free = k;
            assert(self.buf@.subrange(0, k as int) =~= bytes@);
        } else {
            let ghost old_buf = self.buf@;
            let mut j: usize = 0;
            while j < k
                invariant
                    k == bytes@.len(),
                    self.len == old(self).len,
                    self.free == old(self).free,
                    k <= self.len + self.free,
                    self.len + self.free <= old_buf.len(),
                    self.len + self.free <= usize::MAX,
                    self.buf@.len() == old_buf.len(),
                    j <= k,
                    forall|i: int| 0 <= i < j ==> #[trigger] self.buf@[i] == bytes@[i],
                    forall|i: int| j <= i < old_buf.len() ==> #[trigger] self.buf@[i] == old_buf[i],
                decreases k - j,
            {
                self.buf.set(j, bytes[j]);
                j = j + 1;
            }
            if k < self.buf.len() {
                self.buf.set(k, 0u8);
            }
            let total = self.len + self.free;
            self.len = k;
            self.free = total - k;
            assert(self.buf@.subrange(0, k as int) =~= bytes@);
        }
    }

    /// Replaces the content with the bytes of `other`. When content and room
    /// together are too small, the buffer becomes those bytes followed by as
    /// many zeros; otherwise it is written in place, and the byte after the
    /// new content, if any, is zeroed.
    pub fn sdscpy(&mut self, other: &str)
        requires
            old(self).wf(),
            old(self).spec_len() + old(self).spec_free() < other.spec_bytes().len() ==> other.spec_bytes().len()
                * 2 <= usize::MAX,
        ensures
            final(self).wf(),
            final(self).spec_len() == other.spec_bytes().len(),
            final(self).content() == other.spec_bytes(),
            cpy_result(old(self).spec_len(), old(self).spec_free(), old(self).spec_buf(), other.spec_bytes(),
                final(self).spec_free(), final(self).spec_buf()),
    {
        let bytes = s_bytes(other);
        self.cpy_bytes(&bytes);
    }

    /// Removes from both ends of the content every byte whose character is
    /// in `cset`, then copies what is left back as `sdscpy` does.
    pub fn sdstrim(&mut self, cset: &str)
        requires
            old(self).wf(),
        ensures
            final(self).wf(),
            exists|a: int, b: int|
                0 <= a <= b <= old(self).spec_len() && final(self).content() == old(self).content().subrange(a, b)
                    && (forall|i: int| 0 <= i < a ==> in_set(#[trigger] old(self).content()[i], cset@))
                    && (forall|i: int| b <= i < old(self).spec_len() ==> in_set(#[trigger] old(self).content()[i], cset@))
                    && (a < b ==> !in_set(old(self).content()[a], cset@) && !in_set(old(self).content()[b - 1], cset@)),
    {
        let n = self.len;
        let ghost c = self.content();
        let mut sp: usize = 0;
        while sp < n && char_in(cset, self.buf[sp] as char)
            invariant
                n == self.len,
                self.len + self.free <= self.buf@.len(),
                c == self.buf@.subrange(0, n as int),
                sp <= n,
                forall|i: int| 0 <= i < sp ==> in_set(#[trigger] c[i], cset@),
            decreases n - sp,
        {
            sp = sp + 1;
        }
        let mut ep: usize = n;
        while ep > sp && char_in(cset, self.buf[ep - 1] as char)
            invariant
                n == self.len,
                self.len + self.free <= self.buf@.len(),
                c == self.buf@.subrange(0, n as int),
                sp <= ep <= n,
                forall|i: int| ep <= i < n ==> in_set(#[trigger] c[i], cset@),
            decreases ep - sp,
        {
            ep = ep - 1;
        }
        let mut kept: Vec<u8> = Vec::new();
        let mut i: usize = sp;
        while i < ep
            invariant
                n == self.len,
                self.len + self.free <= self.buf@.len(),
                c == self.buf@.subrange(0, n as int),
                sp <= i <= ep <= n,
                kept@ == c.subrange(sp as int, i as int),
            decreases ep - i,
        {
            kept.push(self.buf[i]);
            i = i + 1;
            assert(kept@ =~= c.subrange(sp as int, i as int));
        }
        self.cpy_bytes(&kept);
        proof {
            if sp < ep {
                assert(!in_set(c[sp as int], cset@));
                assert(!in_set(c[ep - 1], cset@));
            }
        }
    }

    /// Adds `len` zero bytes of room.
    pub fn sdsgrowzero(&mut self, len: u64)
        requires
            old(self).wf(),
            old(self).spec_buf().len() + len <= usize::MAX,
        ensures
            final(self).wf(),
            final(self).spec_len() == old(self).spec_len(),
            final(self).spec_free() == old(self).spec_free() + len,
            final(self).spec_buf() == old(self).spec_buf() + zeros(len as nat),
    {
        let ghost old_buf = self.buf@;
        let mut i: u64 = 0;
        while i < len
            invariant
                i <= len,
                self.len == old(self).len,
                self.free == old(self).free,
                old_buf.len() + len <= usize::MAX,
                self.buf@ == old_buf + zeros(i as nat),
            decreases len - i,
        {
            self.buf.push(0u8);
            i = i + 1;
            assert(self.buf@ =~= old_buf + zeros(i as nat));
        }
        self.free = self.free + len as usize;
    }

    /// Keeps the content between `start` and `end`, both included, moved to
    /// the front; `end` is cut to the last byte, and the range is empty when
    /// `start` is past the content or after `end`. The byte after the new
    /// content, if any, is zeroed. Always returns 0.
    pub fn sdsrange(&mut self, start: usize, end: usize) -> (r: i64)
        requires
            old(self).wf(),
        ensures
            final(self).wf(),
            r == 0,
            ({
                let n = old(self).spec_len() as int;
                let e = if end < n { end as int } else { n - 1 };
                let new_len = if n == 0 || start >= n || start > end { 0 } else { e - start + 1 };
                &&& final(self).spec_len() == new_len
                &&& final(self).spec_len() + final(self).spec_free() == old(self).spec_len() + old(self).spec_free()
                &&& final(self).spec_buf().len() == old(self).spec_buf().len()
                &&& (n > 0 && new_len < old(self).spec_buf().len() ==> final(self).spec_buf()[new_len] == 0)
                &&& (forall|i: int| new_len < i < old(self).spec_buf().len() ==> #[trigger] final(self).spec_buf()[i]
                    == old(self).spec_buf()[i])
                &&& (n > 0 ==> final(self).content() == old(self).content().subrange(
                    if new_len == 0 { 0 } else { start as int },
                    if new_len == 0 { 0 } else { e + 1 },
                ))
                &&& (n == 0 ==> final(self).spec_buf() == old(self).spec_buf())
            }),
    {
        if self.len == 0 {
            return 0;
        }
        let n = self.len;
        let ghost old_buf = self.buf@;
        let mut new_len: usize = 0;
        let mut from: usize = 0;
        if start < n && start <= end {
            let e = if end < n {
                end
            } else {
                n - 1
            };
            new_len = e - start + 1;
            from = start;
        }
        let mut j: usize = 0;
        while j < new_len
            invariant
                self.len == old(self).len,
                self.free == old(self).free,
                n == self.len,
                self.len + self.free <= old_buf.len(),
                self.len + self.free <= usize::MAX,
                n <= old_buf.len(),
                from + new_len <= n,
                self.buf@.len() == old_buf.len(),
                j <= new_len,
                forall|i: int| 0 <= i < j ==> #[trigger] self.buf@[i] == old_buf[from + i],
                forall|i: int| j <= i < old_buf.len() ==> #[trigger] self.buf@[i] == old_buf[i],
            decreases new_len - j,
        {
            let b = self.buf[from + j];
            self.buf.set(j, b);
            j = j + 1;
        }
        if new_len < self.buf.len() {
            self.buf.set(new_len, 0u8);
        }
        let total = self.len + self.free;
        self.len = new_len;
        self.free = total - new_len;
        assert(self.buf@.subrange(0, new_len as int) =~= old_buf.subrange(0, n as int).subrange(
            from as int,
            from + new_len,
        ));
        0
    }

    /// Compares the whole buffers byte by byte, a proper prefix first.
    pub fn sdscmp(&self, other: &SDS) -> (r: Ordering)
        ensures
            r == bytes_cmp(self.spec_buf(), other.spec_buf()),
    {
        let a = &self.buf;
        let b = &other.buf;
        let mut i: usize = 0;
        proof {
            lemma_bytes_cmp_suffix(a@, b@, 0);
        }
        while i < a.len() && i < b.len()
            invariant
                a@ == self.buf@,
                b@ == other.buf@,
                i <= a@.len(),
                i <= b@.len(),
                forall|j: int| 0 <= j < i ==> a@[j] == b@[j],
            decreases a@.len() - i,
        {
            proof {
                lemma_bytes_cmp_suffix(a@, b@, i as int);
                assert(a@.subrange(i as int, a@.len() as int)[0] == a@[i as int]);
                assert(b@.subrange(i as int, b@.len() as int)[0] == b@[i as int]);
            }
            let ghost sa = a@.subrange(i as int, a@.len() as int);
            let ghost sb = b@.subrange(i as int, b@.len() as int);
            if a[i] < b[i] {
                assert(sa.len() > 0 && sb.len() > 0 && sa[0] < sb[0]);
                assert(bytes_cmp(sa, sb) == Ordering::Less);
                return Ordering::Less;
            }
            if a[i] > b[i] {
                assert(sa.len() > 0 && sb.len() > 0 && sa[0] > sb[0]);
                assert(bytes_cmp(sa, sb) == Ordering::Greater);
                return Ordering::Greater;
            }
            i = i + 1;
        }
        proof {
            lemma_bytes_cmp_suffix(a@, b@, i as int);
            assert(a@.subrange(i as int, a@.len() as int).len() == a@.len() - i);
            assert(b@.subrange(i as int, b@.len() as int).len() == b@.len() - i);
        }
        if a.len() == b.len() {
            Ordering::Equal
        } else if i == a.len() {
            Ordering::Less
        } else {
            Ordering::Greater
        }
    }
}

/// The bytes of `s`, copied into a vector.
fn s_bytes(s: &str) -> (r: Vec<u8>)
    ensures
        r@ == s.spec_bytes(),
{
    let bytes = s.as_bytes();
    let mut out: Vec<u8> = Vec::new();
    let mut i: usize = 0;
    while i < bytes.len()
        invariant
            i <= bytes@.len(),
            out@ == bytes@.subrange(0, i as int),
        decreases bytes@.len() - i,
    {
        out.push(bytes[i]);
        i = i + 1;
        assert(out@ =~= bytes@.subrange(0, i as int));
    }
    assert(bytes@.subrange(0, i as int) =~= bytes@);
    out
}

} // verus!
