use vstd::prelude::*;

use crate::DecodeError;
use crate::jpeg::{count_sum, sum_counts};
use vstd::string::StrSliceExecFns;
use std::collections::HashMap;

verus! {

broadcast use vstd::std_specs::hash::group_hash_axioms;

} // verus!

verus! {

pub open spec fn is_prefix(a: Seq<bool>, b: Seq<bool>) -> bool {
    a.len() <= b.len() && b.subrange(0, a.len() as int) == a
}

/// No code is a prefix of another one, nor equal to it.
pub open spec fn prefix_free(codes: Seq<Seq<bool>>) -> bool {
    forall|a: int, b: int|
        0 <= a < codes.len() && 0 <= b < codes.len() && a != b ==> !is_prefix(
            #[trigger] codes[a],
            #[trigger] codes[b],
        )
}

/// `v` as `len` bits, most significant first.
pub open spec fn code_bits(len: nat, v: nat) -> Seq<bool>
    decreases len,
{
    if len == 0 {
        Seq::empty()
    } else {
        code_bits((len - 1) as nat, v / 2).push(v % 2 == 1)
    }
}

pub open spec fn two_pow(n: nat) -> nat
    decreases n,
{
    if n == 0 {
        1
    } else {
        2 * two_pow((n - 1) as nat)
    }
}

/// The canonical codes for the counts `h[l..]`, where the first code of length `l + 1` is `code`.
pub open spec fn codes_from(h: Seq<u8>, l: nat, code: nat) -> Seq<Seq<bool>>
    decreases h.len() - l,
{
    if l >= h.len() {
        Seq::empty()
    } else {
        Seq::new(h[l as int] as nat, |j: int| code_bits(l + 1, (code + j) as nat)) + codes_from(
            h,
            l + 1,
            ((code + h[l as int]) * 2) as nat,
        )
    }
}

/// Every code of the counts `h[l..]` fits in its length.
pub open spec fn fits_from(h: Seq<u8>, l: nat, code: nat) -> bool
    decreases h.len() - l,
{
    if l >= h.len() {
        true
    } else {
        code + h[l as int] <= two_pow(l + 1) && fits_from(h, l + 1, ((code + h[l as int]) * 2) as nat)
    }
}

/// The canonical codes of a length histogram: in order of length, consecutive values
/// within a length, the next length starting at twice the value after the last code.
pub open spec fn canonical_codes(h: Seq<u8>) -> Seq<Seq<bool>> {
    codes_from(h, 0, 0)
}

/// A histogram is usable when it has 16 counts and every code fits in its length.
pub open spec fn histogram_ok(h: Seq<u8>) -> bool {
    h.len() == 16 && fits_from(h, 0, 0)
}


proof fn lemma_two_pow_mono(a: nat, b: nat)
    requires
        a <= b,
    ensures
        two_pow(a) <= two_pow(b),
    decreases b - a,
{
    if a < b {
        lemma_two_pow_mono(a, (b - 1) as nat);
    }
}

proof fn lemma_codes_len(h: Seq<u8>, l: nat, code: nat)
    requires
        l <= h.len(),
    ensures
        codes_from(h, l, code).len() == sum_counts(h) - sum_counts(h.take(l as int)),
    decreases h.len() - l,
{
    if l < h.len() {
        lemma_codes_len(h, l + 1, ((code + h[l as int]) * 2) as nat);
        assert(h.take((l + 1) as int).drop_last() =~= h.take(l as int));
    } else {
        assert(h.take(l as int) =~= h);
    }
}

/// The codewords of `v` as bit sequences.
pub open spec fn view_codes(v: Seq<Vec<bool>>) -> Seq<Seq<bool>> {
    Seq::new(v.len(), |i: int| v[i]@)
}

/// A canonical Huffman code table: the codeword of each symbol, most significant bit first.
/// No codeword is a prefix of another, so a bit sequence is read back without ambiguity.
#[derive(Debug)]
pub struct HuffmanTable {
    codes: Vec<Vec<bool>>,
    symbols: Vec<u8>,
}

impl HuffmanTable {
    pub closed spec fn codewords(&self) -> Seq<Seq<bool>> {
        view_codes(self.codes@)
    }

    pub closed spec fn symbol_list(&self) -> Seq<u8> {
        self.symbols@
    }

    pub open spec fn wf(&self) -> bool {
        self.symbol_list().len() == self.codewords().len() && prefix_free(self.codewords())
    }
}

/// The symbol whose codeword is `p`, if any.
pub open spec fn lookup(codes: Seq<Seq<bool>>, symbols: Seq<u8>, p: Seq<bool>) -> Option<u8> {
    if exists|k: int| 0 <= k < codes.len() && codes[k] == p {
        Some(symbols[choose|k: int| 0 <= k < codes.len() && codes[k] == p])
    } else {
        None
    }
}

/// `p` is the start of some codeword.
pub open spec fn continues(codes: Seq<Seq<bool>>, p: Seq<bool>) -> bool {
    exists|k: int| 0 <= k < codes.len() && is_prefix(p, #[trigger] codes[k])
}

/// Bits `from..to` of `bits`, where any non-zero value is a one.
pub open spec fn bit_path(bits: Seq<u8>, from: int, to: int) -> Seq<bool> {
    Seq::new((to - from) as nat, |j: int| bits[from + j] != 0)
}

/// Reading one symbol at `pos`, having read `len` bits of its codeword: the first
/// codeword met gives the symbol; the read fails when the bits run out, or when
/// no codeword starts with the bits read.
pub open spec fn decode_one(
    codes: Seq<Seq<bool>>,
    symbols: Seq<u8>,
    bits: Seq<u8>,
    pos: int,
    len: int,
) -> Result<(u8, int), DecodeError>
    decreases bits.len() - pos - len,
{
    let p = bit_path(bits, pos, pos + len);
    if !(0 <= pos && 0 <= len && pos + len <= bits.len()) {
        Err(DecodeError::BitstreamExhausted)
    } else if lookup(codes, symbols, p) is Some {
        Ok((lookup(codes, symbols, p).unwrap(), pos + len))
    } else if pos + len < bits.len() && continues(codes, p) {
        decode_one(codes, symbols, bits, pos, len + 1)
    } else {
        Err(DecodeError::BitstreamExhausted)
    }
}

/// Reading `count` symbols one after another from `pos`: the symbols and the position after them.
pub open spec fn decode_symbols(
    codes: Seq<Seq<bool>>,
    symbols: Seq<u8>,
    bits: Seq<u8>,
    pos: int,
    count: nat,
) -> Result<(Seq<u8>, int), DecodeError>
    decreases count,
{
    if count == 0 {
        Ok((Seq::empty(), pos))
    } else {
        match decode_one(codes, symbols, bits, pos, 0) {
            Err(e) => Err(e),
            Ok((s, next)) => match decode_symbols(codes, symbols, bits, next, (count - 1) as nat) {
                Err(e) => Err(e),
                Ok((rest, end)) => Ok((seq![s] + rest, end)),
            },
        }
    }
}

/// `v` as `len` bits, most significant first.
fn make_code(len: usize, v: u64) -> (r: Vec<bool>)
    ensures
        r@ == code_bits(len as nat, v as nat),
    decreases len,
{
    if len == 0 {
        Vec::new()
    } else {
        let mut r = make_code(len - 1, v / 2);
        r.push(v % 2 == 1);
        r
    }
}

/// Whether `a` is a prefix of `b`.
fn starts(a: &Vec<bool>, b: &Vec<bool>) -> (r: bool)
    ensures
        r == is_prefix(a@, b@),
{
    if a.len() > b.len() {
        return false;
    }
    let mut i: usize = 0;
    while i < a.len()
        invariant
            i <= a@.len() <= b@.len(),
            forall|j: int| 0 <= j < i ==> a@[j] == b@[j],
        decreases a@.len() - i,
    {
        if a[i] != b[i] {
            assert(b@.subrange(0, a@.len() as int)[i as int] != a@[i as int]);
            return false;
        }
        i = i + 1;
    }
    assert(b@.subrange(0, a@.len() as int) =~= a@);
    true
}

/// Whether no codeword is a prefix of another.
fn check_prefix_free(codes: &Vec<Vec<bool>>) -> (r: bool)
    ensures
        r == prefix_free(view_codes(codes@)),
{
    let ghost cs = view_codes(codes@);
    let mut a: usize = 0;
    while a < codes.len()
        invariant
            a <= codes@.len(),
            cs == view_codes(codes@),
            forall|x: int, y: int|
                0 <= x < a && 0 <= y < cs.len() && x != y ==> !is_prefix(#[trigger] cs[x], #[trigger] cs[y]),
        decreases codes@.len() - a,
    {
        let mut b: usize = 0;
        while b < codes.len()
            invariant
                a < codes@.len(),
                b <= codes@.len(),
                cs == view_codes(codes@),
                forall|x: int, y: int|
                    0 <= x < a && 0 <= y < cs.len() && x != y ==> !is_prefix(#[trigger] cs[x], #[trigger] cs[y]),
                forall|y: int| 0 <= y < b && a != y ==> !is_prefix(cs[a as int], #[trigger] cs[y]),
            decreases codes@.len() - b,
        {
            if a != b && starts(&codes[a], &codes[b]) {
                assert(is_prefix(cs[a as int], cs[b as int]));
                return false;
            }
            b = b + 1;
        }
        a = a + 1;
    }
    true
}

impl HuffmanTable {
    /// Builds the canonical code of a 16-entry length histogram (`length_table[i]` codes of
    /// length `i + 1`) and its symbol list, in order of length.
    pub fn from_canonical_code(length_table: &[u8], symbols: &[u8]) -> (r: Result<
        HuffmanTable,
        DecodeError,
    >)
        ensures
            r is Ok <==> histogram_ok(length_table@) && sum_counts(length_table@) == symbols@.len()
                && prefix_free(canonical_codes(length_table@)),
            r is Err ==> r == Err::<HuffmanTable, DecodeError>(DecodeError::MalformedHuffmanTable),
            r matches Ok(t) ==> t.wf() && t.codewords() == canonical_codes(length_table@)
                && t.symbol_list() == symbols@,
    {
        let ghost h = length_table@;
        if length_table.len() != 16 {
            return Err(DecodeError::MalformedHuffmanTable);
        }
        let total = count_sum(length_table, 0);
        assert(h.subrange(0, 16) =~= h);
        if total != symbols.len() {
            return Err(DecodeError::MalformedHuffmanTable);
        }
        let mut codes: Vec<Vec<bool>> = Vec::new();
        let mut code: u64 = 0;
        let mut limit: u64 = 2;
        let mut l: usize = 0;
        proof {
            assert(two_pow(0) == 1);
            assert(two_pow(1) == 2);
            reveal_with_fuel(two_pow, 18);
            assert(two_pow(17) == 0x20000);
            lemma_codes_len(h, 0, 0);
            assert(h.take(0) =~= Seq::<u8>::empty());
        }
        while l < 16
            invariant
                l <= 16,
                h == length_table@,
                h.len() == 16,
                limit == two_pow((l + 1) as nat),
                two_pow(17) == 0x20000,
                limit <= 0x20000,
                sum_counts(h) == symbols@.len(),
                canonical_codes(h).len() == sum_counts(h),
                code <= limit,
                codes@.len() <= 255 * l,
                view_codes(codes@) + codes_from(h, l as nat, code as nat) == canonical_codes(h),
                fits_from(h, l as nat, code as nat) == fits_from(h, 0, 0),
            decreases 16 - l,
        {
            let count = length_table[l];
            if code + count as u64 > limit {
                return Err(DecodeError::MalformedHuffmanTable);
            }
            proof {
                lemma_two_pow_mono((l + 2) as nat, 17);
                assert(two_pow((l + 2) as nat) == 2 * two_pow((l + 1) as nat));
            }
            let ghost done = view_codes(codes@);
            let ghost rest = codes_from(h, (l + 1) as nat, ((code + count) * 2) as nat);
            let ghost here = Seq::new(count as nat, |j: int| code_bits((l + 1) as nat, (code + j) as nat));
            assert(codes_from(h, l as nat, code as nat) == here + rest);
            let mut j: u8 = 0;
            while j < count
                invariant
                    j <= count,
                    l < 16,
                    code + count <= limit <= 0x20000,
                    codes@.len() == done.len() + j,
                    view_codes(codes@) == done + here.take(j as int),
                    here.len() == count,
                    forall|t: int|
                        0 <= t < count ==> #[trigger] here[t] == code_bits((l + 1) as nat, (code + t) as nat),
                decreases count - j,
            {
                let ghost prev = codes@;
                let c = make_code(l + 1, code + j as u64);
                codes.push(c);
                assert(codes@ =~= prev.push(c));
                assert(here[j as int] == c@);
                assert(view_codes(codes@) =~= view_codes(prev).push(c@));
                assert(here.take(j + 1) =~= here.take(j as int).push(here[j as int]));
                j = j + 1;
                assert(view_codes(codes@) =~= done + here.take(j as int));
            }
            assert(here.take(count as int) =~= here);
            assert(view_codes(codes@) + rest =~= done + (here + rest));
            code = (code + count as u64) * 2;
            limit = limit * 2;
            l = l + 1;
        }
        assert(view_codes(codes@) =~= canonical_codes(h));
        if !check_prefix_free(&codes) {
            return Err(DecodeError::MalformedHuffmanTable);
        }
        let mut syms: Vec<u8> = Vec::new();
        let mut i: usize = 0;
        while i < symbols.len()
            invariant
                i <= symbols@.len(),
                syms@ == symbols@.take(i as int),
            decreases symbols@.len() - i,
        {
            syms.push(symbols[i]);
            i = i + 1;
            assert(syms@ =~= symbols@.take(i as int));
        }
        assert(symbols@.take(symbols@.len() as int) =~= symbols@);
        Ok(HuffmanTable { codes, symbols: syms })
    }
}

/// `r` followed by the outcome `w` of reading on.
pub open spec fn prepend(r: Seq<u8>, w: Result<(Seq<u8>, int), DecodeError>) -> Result<(Seq<u8>, int), DecodeError> {
    match w {
        Err(e) => Err(e),
        Ok((rest, end)) => Ok((r + rest, end)),
    }
}

/// A codeword as text, one `'0'` or `'1'` per bit.
pub open spec fn code_text(p: Seq<bool>) -> Seq<char> {
    Seq::new(p.len(), |i: int| if p[i] { '1' } else { '0' })
}

impl HuffmanTable {
    /// The index of the codeword equal to `path`, if any.
    fn find(&self, path: &Vec<bool>) -> (r: Option<usize>)
        requires
            self.wf(),
        ensures
            r matches Some(k) ==> k < self.codewords().len() && self.codewords()[k as int] == path@,
            r is None ==> forall|k: int| 0 <= k < self.codewords().len() ==> self.codewords()[k] != path@,
    {
        let mut k: usize = 0;
        while k < self.codes.len()
            invariant
                k <= self.codes@.len(),
                forall|t: int| 0 <= t < k ==> self.codewords()[t] != path@,
            decreases self.codes@.len() - k,
        {
            assert(self.codewords()[k as int] == self.codes@[k as int]@);
            if self.codes[k].len() == path.len() && starts(&self.codes[k], path) {
                assert(path@.subrange(0, self.codes[k as int]@.len() as int) =~= path@);
                return Some(k);
            }
            assert(path@.subrange(0, path@.len() as int) =~= path@);
            k = k + 1;
        }
        None
    }

    /// Whether some codeword starts with `path`.
    fn any_continues(&self, path: &Vec<bool>) -> (r: bool)
        ensures
            r == continues(self.codewords(), path@),
    {
        let mut k: usize = 0;
        while k < self.codes.len()
            invariant
                k <= self.codes@.len(),
                forall|t: int| 0 <= t < k ==> !is_prefix(path@, #[trigger] self.codewords()[t]),
            decreases self.codes@.len() - k,
        {
            if starts(path, &self.codes[k]) {
                assert(is_prefix(path@, self.codewords()[k as int]));
                return true;
            }
            k = k + 1;
        }
        false
    }

    /// Reads one symbol from `bits` at `pos`.
    fn read_symbol(&self, bits: &[u8], pos: usize) -> (r: Result<(u8, usize), DecodeError>)
        requires
            self.wf(),
            pos <= bits@.len(),
        ensures
            match decode_one(self.codewords(), self.symbol_list(), bits@, pos as int, 0) {
                Err(e) => r == Err::<(u8, usize), DecodeError>(e),
                Ok((s, next)) => r matches Ok((v, n)) && v == s && n == next && next <= bits@.len(),
            },
    {
        let ghost cs = self.codewords();
        let ghost ss = self.symbol_list();
        let mut path: Vec<bool> = Vec::new();
        let mut len: usize = 0;
        let n = bits.len();
        assert(path@ =~= bit_path(bits@, pos as int, pos as int));
        loop
            invariant
                n == bits@.len(),
                self.wf(),
                cs == self.codewords(),
                ss == self.symbol_list(),
                pos + len <= bits@.len(),
                path@ == bit_path(bits@, pos as int, pos + len),
                decode_one(cs, ss, bits@, pos as int, len as int) == decode_one(cs, ss, bits@, pos as int, 0),
            decreases bits@.len() - pos - len,
        {
            match self.find(&path) {
                Some(k) => {
                    proof {
                        assert(lookup(cs, ss, path@) is Some);
                        let j = choose|j: int| 0 <= j < cs.len() && cs[j] == path@;
                        if j != k {
                            assert(cs[k as int].subrange(0, cs[j].len() as int) =~= cs[k as int]);
                            assert(is_prefix(cs[j], cs[k as int]));
                        }
                    }
                    return Ok((self.symbols[k], pos + len));
                },
                None => {},
            }
            if len < bits.len() - pos && self.any_continues(&path) {
                let ghost before = path@;
                path.push(bits[pos + len] != 0);
                assert(path@ =~= bit_path(bits@, pos as int, pos + len + 1));
                len = len + 1;
            } else {
                return Err(DecodeError::BitstreamExhausted);
            }
        }
    }

    /// Reads `count` symbols from `bits`, starting at bit `start`; returns them and the
    /// position after the last one. Fails when the bits run out inside a codeword, or
    /// when they leave every codeword.
    pub fn decode(&self, bits: &[u8], start: usize, count: usize) -> (r: Result<(Vec<u8>, usize), DecodeError>)
        requires
            self.wf(),
            start <= bits@.len(),
        ensures
            match decode_symbols(self.codewords(), self.symbol_list(), bits@, start as int, count as nat) {
                Err(e) => r == Err::<(Vec<u8>, usize), DecodeError>(e),
                Ok((syms, end)) => r matches Ok((v, e)) && v@ == syms && e == end,
            },
    {
        let ghost cs = self.codewords();
        let ghost ss = self.symbol_list();
        let mut out: Vec<u8> = Vec::new();
        let mut pos: usize = start;
        let mut done: usize = 0;
        assert(out@ + Seq::<u8>::empty() =~= out@);
        proof {
            match decode_symbols(cs, ss, bits@, start as int, count as nat) {
                Ok((syms, end)) => { assert(out@ + syms =~= syms); },
                _ => {},
            }
        }
        while done < count
            invariant
                self.wf(),
                cs == self.codewords(),
                ss == self.symbol_list(),
                done <= count,
                pos <= bits@.len(),
                prepend(out@, decode_symbols(cs, ss, bits@, pos as int, (count - done) as nat))
                    == decode_symbols(cs, ss, bits@, start as int, count as nat),
            decreases count - done,
        {
            match self.read_symbol(bits, pos) {
                Err(e) => {
                    return Err(e);
                },
                Ok((sym, next)) => {
                    proof {
                        match decode_symbols(cs, ss, bits@, next as int, (count - done - 1) as nat) {
                            Ok((rest, end)) => {
                                assert(out@ + (seq![sym] + rest) =~= out@.push(sym) + rest);
                            },
                            _ => {},
                        }
                    }
                    out.push(sym);
                    pos = next;
                    done = done + 1;
                },
            }
        }
        assert(out@ + Seq::<u8>::empty() =~= out@);
        Ok((out, pos))
    }

    /// The codeword of each symbol as text, one `'0'` or `'1'` per bit.
    pub fn get_huffman_codes(&self) -> (r: HashMap<u8, String>)
        requires
            self.wf(),
        ensures
            forall|k: int| 0 <= k < self.symbol_list().len() ==> r@.contains_key(#[trigger] self.symbol_list()[k]),
            forall|s: u8|
                #[trigger] r@.contains_key(s) ==> exists|k: int|
                    0 <= k < self.symbol_list().len() && self.symbol_list()[k] == s && r@[s]@ == code_text(
                        self.codewords()[k],
                    ),
    {
        let mut map: HashMap<u8, String> = HashMap::new();
        let mut k: usize = 0;
        while k < self.codes.len()
            invariant
                self.wf(),
                k <= self.codes@.len(),
                forall|t: int| 0 <= t < k ==> map@.contains_key(#[trigger] self.symbol_list()[t]),
                forall|s: u8|
                    #[trigger] map@.contains_key(s) ==> exists|t: int|
                        0 <= t < k && self.symbol_list()[t] == s && map@[s]@ == code_text(self.codewords()[t]),
            decreases self.codes@.len() - k,
        {
            let code = &self.codes[k];
            let mut text = String::new();
            let mut i: usize = 0;
            while i < code.len()
                invariant
                    i <= code@.len(),
                    text@ == code_text(code@.take(i as int)),
                decreases code@.len() - i,
            {
                if code[i] {
                    proof { reveal_strlit("1"); }
                    text.append("1");
                } else {
                    proof { reveal_strlit("0"); }
                    text.append("0");
                }
                i = i + 1;
                assert(text@ =~= code_text(code@.take(i as int)));
            }
            assert(code@.take(code@.len() as int) =~= code@);
            let sym = self.symbols[k];
            let ghost before = map@;
            map.insert(sym, text);
            proof {
                assert forall|s: u8| #[trigger] map@.contains_key(s) implies exists|t: int|
                    0 <= t < k + 1 && self.symbol_list()[t] == s && map@[s]@ == code_text(self.codewords()[t]) by {
                    if s == sym {
                        assert(self.symbol_list()[k as int] == s);
                    } else {
                        assert(before.contains_key(s));
                    }
                }
            }
            k = k + 1;
        }
        map
    }
}

/// How often `c` occurs in `s`.
pub open spec fn count_in(s: Seq<char>, c: char) -> int
    decreases s.len(),
{
    if s.len() == 0 {
        0
    } else {
        count_in(s.drop_last(), c) + if s.last() == c {
            1int
        } else {
            0
        }
    }
}

/// Each character of `s` once, with the number of times it occurs.
pub open spec fn is_frequency_table(r: Seq<(char, i32)>, s: Seq<char>) -> bool {
    &&& forall|i: int, j: int| 0 <= i < j < r.len() ==> (#[trigger] r[i]).0 != (#[trigger] r[j]).0
    &&& forall|i: int| 0 <= i < r.len() ==> (#[trigger] r[i]).1 == count_in(s, r[i].0)
    &&& forall|k: int| 0 <= k < s.len() ==> exists|i: int| 0 <= i < r.len() && (#[trigger] r[i]).0 == #[trigger] s[k]
}

/// Counts each character of `input`; a character gets its entry where it first occurs.
pub fn huffman_frequency(input: &str) -> (r: Vec<(char, i32)>)
    requires
        input@.len() <= i32::MAX,
    ensures
        is_frequency_table(r@, input@),
{
    let n = input.unicode_len();
    let mut v: Vec<(char, i32)> = Vec::new();
    let mut i: usize = 0;
    while i < n
        invariant
            n == input@.len() <= i32::MAX,
            i <= n,
            is_frequency_table(v@, input@.take(i as int)),
            forall|x: int| 0 <= x < v@.len() ==> 1 <= (#[trigger] v@[x]).1 <= i,
        decreases n - i,
    {
        let c = input.get_char(i);
        let ghost pre = input@.take(i as int);
        let ghost next = input@.take(i + 1);
        assert(next.drop_last() =~= pre);
        assert(next.last() == c);
        let mut k: usize = 0;
        while k < v.len() && v[k].0 != c
            invariant
                k <= v@.len(),
                forall|x: int| 0 <= x < k ==> (#[trigger] v@[x]).0 != c,
            decreases v@.len() - k,
        {
            k = k + 1;
        }
        let ghost before = v@;
        if k < v.len() {
            let (key, count) = v[k];
            assert(key == c);
            v.set(k, (key, count + 1));
            assert forall|x: int| 0 <= x < v@.len() implies (#[trigger] v@[x]).1 == count_in(next, v@[x].0) by {
                assert(count_in(next, before[x].0) == count_in(pre, before[x].0) + if c == before[x].0 { 1int } else { 0 });
            }
        } else {
            v.push((c, 1));
            assert forall|x: int| 0 <= x < v@.len() implies (#[trigger] v@[x]).1 == count_in(next, v@[x].0) by {
                if x < before.len() {
                    assert(count_in(next, before[x].0) == count_in(pre, before[x].0));
                } else {
                    assert(count_in(next, c) == count_in(pre, c) + 1);
                    if count_in(pre, c) != 0 {
                        lemma_count_occurs(pre, c);
                        let m = choose|m: int| 0 <= m < pre.len() && pre[m] == c;
                        let y = choose|y: int| 0 <= y < before.len() && (#[trigger] before[y]).0 == pre[m];
                    }
                }
            }
        }
        assert forall|m: int| 0 <= m < next.len() implies exists|x: int| 0 <= x < v@.len() && (#[trigger] v@[x]).0 == #[trigger] next[m] by {
            if m < pre.len() {
                assert(next[m] == pre[m]);
                let y = choose|y: int| 0 <= y < before.len() && (#[trigger] before[y]).0 == pre[m];
                assert(v@[y].0 == before[y].0);
            } else {
                assert(v@[k as int].0 == c);
            }
        }
        i = i + 1;
    }
    assert(input@.take(n as int) =~= input@);
    v
}

proof fn lemma_count_occurs(s: Seq<char>, c: char)
    requires
        count_in(s, c) != 0,
    ensures
        exists|m: int| 0 <= m < s.len() && s[m] == c,
    decreases s.len(),
{
    if s.last() != c {
        lemma_count_occurs(s.drop_last(), c);
        let m = choose|m: int| 0 <= m < s.drop_last().len() && s.drop_last()[m] == c;
        assert(s[m] == c);
    } else {
        assert(s[s.len() - 1] == c);
    }
}

/// In a well-formed table, reading the bits of a codeword gives back its symbol and
/// stops right after it: symbols are reached only through whole codewords.
pub proof fn lemma_codeword_decodes(t: HuffmanTable, k: int, bits: Seq<u8>)
    requires
        t.wf(),
        0 <= k < t.codewords().len(),
        bits.len() == t.codewords()[k].len(),
        forall|j: int| 0 <= j < bits.len() ==> (bits[j] != 0) == t.codewords()[k][j],
    ensures
        decode_one(t.codewords(), t.symbol_list(), bits, 0, 0) == Ok::<(u8, int), DecodeError>(
            (t.symbol_list()[k], bits.len() as int),
        ),
{
    let cs = t.codewords();
    let ss = t.symbol_list();
    let c = cs[k];
    assert(bit_path(bits, 0, bits.len() as int) =~= c);
    lemma_codeword_from(cs, ss, bits, k, bits.len() as int);
}

proof fn lemma_codeword_from(cs: Seq<Seq<bool>>, ss: Seq<u8>, bits: Seq<u8>, k: int, len: int)
    requires
        prefix_free(cs),
        0 <= k < cs.len(),
        bits.len() == cs[k].len(),
        0 <= len <= bits.len(),
        forall|j: int| 0 <= j < bits.len() ==> (bits[j] != 0) == cs[k][j],
    ensures
        decode_one(cs, ss, bits, 0, bits.len() - len) == Ok::<(u8, int), DecodeError>(
            (ss[k], bits.len() as int),
        ),
    decreases len,
{
    let l = bits.len() - len;
    let p = bit_path(bits, 0, l);
    assert(p =~= cs[k].subrange(0, l));
    if len == 0 {
        assert(cs[k].subrange(0, l) =~= cs[k]);
        let j = choose|j: int| 0 <= j < cs.len() && cs[j] == p;
        if j != k {
            assert(cs[k].subrange(0, cs[j].len() as int) =~= cs[k]);
            assert(is_prefix(cs[j], cs[k]));
        }
    } else {
        lemma_codeword_from(cs, ss, bits, k, len - 1);
        if exists|j: int| 0 <= j < cs.len() && cs[j] == p {
            let j = choose|j: int| 0 <= j < cs.len() && cs[j] == p;
            assert(j != k);
            assert(cs[k].subrange(0, cs[j].len() as int) =~= cs[j]);
            assert(is_prefix(cs[j], cs[k]));
        }
        assert(is_prefix(p, cs[k]));
        assert(continues(cs, p));
    }
}

} // verus!
