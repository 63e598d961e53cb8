//! Chunkserver-side logic: the held-chunk set, the OTP gate, the upload
//! stream protocol, chunk-name parsing and blob path derivation.  The
//! process around it owns the actual bytes on disk and the wire.

use crate::chunk_id::{is_digit_char, spec_chunk_id, spec_decimal, spec_digit_char};
use crate::config::{ChunkServerConfig, CommonConfig};
use crate::errors::FsError;
use vstd::prelude::*;
use vstd::string::StrSliceExecFns;
use vstd::string::StringExecFns;

verus! {

/// The numeric value of a decimal digit character (0 for non-digits).
pub open spec fn spec_digit_val(c: char) -> int {
    if c == '1' {
        1
    } else if c == '2' {
        2
    } else if c == '3' {
        3
    } else if c == '4' {
        4
    } else if c == '5' {
        5
    } else if c == '6' {
        6
    } else if c == '7' {
        7
    } else if c == '8' {
        8
    } else if c == '9' {
        9
    } else {
        0
    }
}

/// Every character is a decimal digit.
pub open spec fn all_digits(s: Seq<char>) -> bool {
    forall|i: int| 0 <= i < s.len() ==> is_digit_char(#[trigger] s[i])
}

/// The number a digit string denotes, most significant digit first.
pub open spec fn spec_parse_decimal(s: Seq<char>) -> int
    decreases s.len(),
{
    if s.len() == 0 {
        0
    } else {
        spec_parse_decimal(s.drop_last()) * 10 + spec_digit_val(s.last())
    }
}

/// A parsed value is never negative.
pub proof fn lemma_parse_nonneg(s: Seq<char>)
    ensures
        spec_parse_decimal(s) >= 0,
    decreases s.len(),
{
    if s.len() > 0 {
        lemma_parse_nonneg(s.drop_last());
        assert(spec_parse_decimal(s.drop_last()) * 10 >= 0) by (nonlinear_arith)
            requires
                spec_parse_decimal(s.drop_last()) >= 0,
        ;
    }
}

/// Dropping trailing digits never increases the value.
pub proof fn lemma_parse_prefix_le(s: Seq<char>, k: int)
    requires
        0 <= k <= s.len(),
    ensures
        spec_parse_decimal(s.subrange(0, k)) <= spec_parse_decimal(s),
    decreases s.len() - k,
{
    if k < s.len() {
        lemma_parse_prefix_le(s, k + 1);
        let p1 = s.subrange(0, k + 1);
        assert(p1.drop_last() =~= s.subrange(0, k));
        lemma_parse_nonneg(s.subrange(0, k));
        assert(spec_parse_decimal(p1) == spec_parse_decimal(s.subrange(0, k)) * 10
            + spec_digit_val(p1.last()));
        assert(spec_parse_decimal(s.subrange(0, k)) * 10 >= spec_parse_decimal(
            s.subrange(0, k),
        )) by (nonlinear_arith)
            requires
                spec_parse_decimal(s.subrange(0, k)) >= 0,
        ;
        assert(spec_digit_val(p1.last()) >= 0);
    } else {
        assert(s.subrange(0, k) =~= s);
    }
}

/// Reading back a decimal rendering gives the number it was made from.
pub proof fn lemma_parse_decimal_roundtrip(n: int)
    requires
        n >= 0,
    ensures
        spec_parse_decimal(spec_decimal(n)) == n,
    decreases n,
{
    if n < 10 {
        assert(spec_decimal(n) == seq![spec_digit_char(n)]);
        assert(seq![spec_digit_char(n)].drop_last() =~= Seq::<char>::empty());
        assert(seq![spec_digit_char(n)].last() == spec_digit_char(n));
        assert(spec_parse_decimal(Seq::<char>::empty()) == 0);
        assert(spec_parse_decimal(seq![spec_digit_char(n)]) == 0 * 10 + spec_digit_val(
            spec_digit_char(n),
        ));
        assert(spec_digit_val(spec_digit_char(n)) == n);
    } else {
        lemma_parse_decimal_roundtrip(n / 10);
        assert(spec_decimal(n) == spec_decimal(n / 10).push(spec_digit_char(n % 10)));
        assert(spec_decimal(n).drop_last() =~= spec_decimal(n / 10));
        assert(spec_decimal(n).last() == spec_digit_char(n % 10));
        assert(0 <= n % 10 < 10);
        assert(spec_digit_val(spec_digit_char(n % 10)) == n % 10);
        assert(spec_parse_decimal(spec_decimal(n)) == (n / 10) * 10 + n % 10);
        assert((n / 10) * 10 + n % 10 == n) by (nonlinear_arith)
            requires
                n >= 0,
        ;
    }
}

/// Parses a non-empty digit string into a number; `InvalidArgument` when a
/// character is no digit, the string is empty, or the value does not fit.
pub fn parse_decimal(s: &str) -> (r: Result<u64, FsError>)
    ensures
        match r {
            Ok(v) => s@.len() >= 1 && all_digits(s@) && v as int == spec_parse_decimal(s@),
            Err(e) => e == FsError::InvalidArgument && (s@.len() == 0 || !all_digits(s@)
                || spec_parse_decimal(s@) > u64::MAX),
        },
{
    let n = s.unicode_len();
    if n == 0 {
        return Err(FsError::InvalidArgument);
    }
    let mut acc: u64 = 0;
    let mut i: usize = 0;
    while i < n
        invariant
            n == s@.len(),
            i <= n,
            all_digits(s@.subrange(0, i as int)),
            acc as int == spec_parse_decimal(s@.subrange(0, i as int)),
        decreases n - i,
    {
        let c = s.get_char(i);
        let d: u64 = match c {
            '0' => 0,
            '1' => 1,
            '2' => 2,
            '3' => 3,
            '4' => 4,
            '5' => 5,
            '6' => 6,
            '7' => 7,
            '8' => 8,
            '9' => 9,
            _ => {
                proof {
                    assert(!is_digit_char(s@[i as int]));
                }
                return Err(FsError::InvalidArgument);
            },
        };
        proof {
            assert(is_digit_char(s@[i as int]));
            assert(spec_digit_val(s@[i as int]) == d as int);
        }
        if acc > (u64::MAX - d) / 10 {
            proof {
                let p1 = s@.subrange(0, i as int + 1);
                assert(p1.drop_last() =~= s@.subrange(0, i as int));
                assert(p1.last() == s@[i as int]);
                assert(acc as int * 10 + d as int > u64::MAX) by (nonlinear_arith)
                    requires
                        acc as int > (u64::MAX - d as int) / 10,
                        0 <= d as int <= 9,
                        (u64::MAX - d as int) / 10 * 10 + (u64::MAX - d as int) % 10 == u64::MAX
                            - d as int,
                        0 <= (u64::MAX - d as int) % 10 < 10,
                ;
                assert(spec_parse_decimal(p1) > u64::MAX);
                lemma_parse_prefix_le(s@, i as int + 1);
            }
            return Err(FsError::InvalidArgument);
        }
        proof {
            assert(acc as int * 10 + d as int <= u64::MAX) by (nonlinear_arith)
                requires
                    acc as int <= (u64::MAX - d as int) / 10,
                    0 <= d as int <= 9,
                    acc as int >= 0,
                    (u64::MAX - d as int) / 10 * 10 + (u64::MAX - d as int) % 10 == u64::MAX
                        - d as int,
                    0 <= (u64::MAX - d as int) % 10 < 10,
            ;
            let p1 = s@.subrange(0, i as int + 1);
            assert(p1.drop_last() =~= s@.subrange(0, i as int));
            assert(p1.last() == s@[i as int]);
        }
        acc = acc * 10 + d;
        i = i + 1;
    }
    proof {
        assert(s@.subrange(0, n as int) =~= s@);
    }
    Ok(acc)
}

/// The separator stands at position `k` of `s`.
pub open spec fn is_sep_at(s: Seq<char>, k: int) -> bool {
    0 <= k && k + 7 <= s.len() && s.subrange(k, k + 7) == "_chunk_"@
}

/// Whether the separator stands at position `k`.
fn check_sep(s: &str, k: usize) -> (r: bool)
    requires
        k + 7 <= s@.len(),
        s@.len() <= usize::MAX,
    ensures
        r == is_sep_at(s@, k as int),
{
    proof {
        reveal_strlit("_chunk_");
    }
    let r = s.get_char(k) == '_' && s.get_char(k + 1) == 'c' && s.get_char(k + 2) == 'h'
        && s.get_char(k + 3) == 'u' && s.get_char(k + 4) == 'n' && s.get_char(k + 5) == 'k'
        && s.get_char(k + 6) == '_';
    proof {
        if r {
            assert(s@.subrange(k as int, k as int + 7) =~= "_chunk_"@);
        }
        if is_sep_at(s@, k as int) {
            assert(s@.subrange(k as int, k as int + 7)[0] == s@[k as int]);
            assert(s@.subrange(k as int, k as int + 7)[1] == s@[k as int + 1]);
            assert(s@.subrange(k as int, k as int + 7)[2] == s@[k as int + 2]);
            assert(s@.subrange(k as int, k as int + 7)[3] == s@[k as int + 3]);
            assert(s@.subrange(k as int, k as int + 7)[4] == s@[k as int + 4]);
            assert(s@.subrange(k as int, k as int + 7)[5] == s@[k as int + 5]);
            assert(s@.subrange(k as int, k as int + 7)[6] == s@[k as int + 6]);
        }
    }
    r
}

/// Splits a chunk id into its file name and chunk index: the part before
/// the first separator, and the digits after that separator.  A name
/// without separator, or with anything but a fitting number after it, is
/// an `InvalidArgument`.
pub fn parse_chunk_id(name: &str) -> (r: Result<(String, u64), FsError>)
    ensures
        match r {
            Ok(p) => exists|k: int|
                is_sep_at(name@, k) && (forall|k2: int| 0 <= k2 < k ==> !is_sep_at(name@, k2))
                    && #[trigger] p.0@ == name@.subrange(0, k) && {
                    let digits = name@.subrange(k + 7, name@.len() as int);
                    digits.len() >= 1 && all_digits(digits) && p.1 as int == spec_parse_decimal(
                        digits,
                    )
                },
            Err(e) => e == FsError::InvalidArgument,
        },
{
    let n = name.unicode_len();
    if n < 7 {
        return Err(FsError::InvalidArgument);
    }
    let mut k: usize = 0;
    while k <= n - 7
        invariant
            n == name@.len(),
            7 <= n,
            k <= n,
            forall|k2: int| 0 <= k2 < k ==> !is_sep_at(name@, k2),
        decreases n - k,
    {
        if check_sep(name, k) {
            let file = name.substring_char(0, k).to_owned();
            let digits = name.substring_char(k + 7, n);
            let v = match parse_decimal(digits) {
                Ok(v) => v,
                Err(e) => {
                    return Err(e);
                },
            };
            proof {
                assert(is_sep_at(name@, k as int));
                assert(file@ == name@.subrange(0, k as int));
                assert(digits@ == name@.subrange(k as int + 7, name@.len() as int));
            }
            return Ok((file, v));
        }
        k = k + 1;
    }
    Err(FsError::InvalidArgument)
}

/// An address made safe for use as a directory name: ':' becomes '_'.
pub open spec fn spec_sanitize(s: Seq<char>) -> Seq<char> {
    s.map_values(
        |c: char|
            if c == ':' {
                '_'
            } else {
                c
            },
    )
}

/// Relies on String's FromIterator over char: collecting characters gives
/// the string of exactly those characters.
#[verifier::external_body]
fn chars_to_string(v: &Vec<char>) -> (r: String)
    ensures
        r@ == v@,
{
    v.iter().collect()
}

/// Rewrites an address into a directory name, ':' becoming '_'.
pub fn sanitize_address(s: &str) -> (r: String)
    ensures
        r@ == spec_sanitize(s@),
{
    let n = s.unicode_len();
    let mut out: Vec<char> = Vec::new();
    let mut i: usize = 0;
    while i < n
        invariant
            n == s@.len(),
            i <= n,
            out@ =~= spec_sanitize(s@).subrange(0, i as int),
        decreases n - i,
    {
        let c = s.get_char(i);
        let c2 = if c == ':' {
            '_'
        } else {
            c
        };
        out.push(c2);
        proof {
            assert(out@ =~= spec_sanitize(s@).subrange(0, i as int + 1));
        }
        i = i + 1;
    }
    proof {
        assert(spec_sanitize(s@).subrange(0, n as int) =~= spec_sanitize(s@));
    }
    chars_to_string(&out)
}

/// Where a chunkserver keeps the blob of one chunk:
/// `<sanitized address>/<data root>/<chunk name>`.
pub open spec fn spec_chunk_path(
    sanitized: Seq<char>,
    data_path: Seq<char>,
    chunk_name: Seq<char>,
) -> Seq<char> {
    sanitized + "/"@ + data_path + "/"@ + chunk_name
}

/// Builds the blob path of one chunk.
pub fn chunk_file_path(sanitized: &str, data_path: &str, chunk_name: &str) -> (r: String)
    ensures
        r@ == spec_chunk_path(sanitized@, data_path@, chunk_name@),
{
    let mut s = sanitized.to_owned();
    s.append("/");
    s.append(data_path);
    s.append("/");
    s.append(chunk_name);
    s
}

/// One frame of an upload stream, as the handler's decision logic sees it:
/// the leading descriptor, a byte payload, or a frame carrying nothing.
pub enum UploadFrame {
    Info { file_name: String, chunk_index: u64 },
    Payload { data: Vec<u8> },
    Empty,
}

/// What the storage layer must do for one upload frame.
pub enum UploadAction {
    CreateBlob { chunk_name: String },
    AppendBlob { data: Vec<u8> },
}

/// One step of the upload stream protocol.  The first descriptor opens
/// (and truncates) the blob named by the canonical chunk id; payloads
/// append to it; a payload before any descriptor, or an empty frame, is an
/// `InvalidArgument`.  Returns whether a blob is now open, and the action
/// to carry out.
pub fn upload_step(receiving: bool, frame: UploadFrame) -> (r: Result<
    (bool, UploadAction),
    FsError,
>)
    ensures
        match frame {
            UploadFrame::Info { file_name, chunk_index } => match r {
                Ok(p) => p.0 && (p.1 matches UploadAction::CreateBlob { chunk_name } && chunk_name@
                    == spec_chunk_id(file_name@, chunk_index as int)),
                Err(_) => false,
            },
            UploadFrame::Payload { data } => match r {
                Ok(p) => receiving && p.0 == receiving && (p.1 matches UploadAction::AppendBlob {
                    data: d,
                } && d@ == data@),
                Err(e) => !receiving && e == FsError::InvalidArgument,
            },
            UploadFrame::Empty => match r {
                Ok(_) => false,
                Err(e) => e == FsError::InvalidArgument,
            },
        },
{
    match frame {
        UploadFrame::Info { file_name, chunk_index } => {
            let chunk_name = crate::chunk_id::chunk_id_for(file_name.as_str(), chunk_index);
            Ok((true, UploadAction::CreateBlob { chunk_name }))
        },
        UploadFrame::Payload { data } => {
            if receiving {
                Ok((receiving, UploadAction::AppendBlob { data }))
            } else {
                Err(FsError::InvalidArgument)
            }
        },
        UploadFrame::Empty => Err(FsError::InvalidArgument),
    }
}

/// The end-of-stream check of an upload: a stream that never carried a
/// descriptor (in particular an empty one) is an `InvalidArgument`.
pub fn upload_finish(receiving: bool) -> (r: Result<(), FsError>)
    ensures
        match r {
            Ok(_) => receiving,
            Err(e) => e == FsError::InvalidArgument && !receiving,
        },
{
    if receiving {
        Ok(())
    } else {
        Err(FsError::InvalidArgument)
    }
}

/// One entry of the OTP table: a minted one-time password and the unix
/// time at which it stops being accepted.
#[derive(Debug)]
pub struct OtpEntry {
    pub key: String,
    pub expiry: u64,
}

impl DeepView for OtpEntry {
    type V = (Seq<char>, u64);

    open spec fn deep_view(&self) -> (Seq<char>, u64) {
        (self.key@, self.expiry)
    }
}

impl Clone for OtpEntry {
    fn clone(&self) -> (res: Self)
        ensures
            res.deep_view() == self.deep_view(),
    {
        OtpEntry { key: self.key.clone(), expiry: self.expiry }
    }
}

/// The OTP table without its expired entries: only passwords whose expiry
/// lies strictly after `now` remain.
pub open spec fn spec_sweep(otps: Seq<(Seq<char>, u64)>, now: u64) -> Seq<(Seq<char>, u64)>
    decreases otps.len(),
{
    if otps.len() == 0 {
        Seq::empty()
    } else {
        let rest = spec_sweep(otps.drop_last(), now);
        if otps.last().1 > now {
            rest.push(otps.last())
        } else {
            rest
        }
    }
}

/// An OTP is accepted iff it is in the table with a future expiry.
pub open spec fn spec_otp_valid(otps: Seq<(Seq<char>, u64)>, otp: Seq<char>, now: u64) -> bool {
    exists|i: int| 0 <= i < otps.len() && (#[trigger] otps[i]).0 == otp && otps[i].1 > now
}

/// The chunkserver's in-memory state: which chunks it holds and which
/// one-time passwords it currently accepts.
#[derive(Debug)]
pub struct ChunkService {
    pub addr: String,
    pub addr_sanitized: String,
    /// The names of the chunks this server holds a blob for.
    pub server_chunks: Vec<String>,
    pub config: ChunkServerConfig,
    pub common_config: CommonConfig,
    /// Minted OTPs with their expiry times.
    pub otp_store: Vec<OtpEntry>,
}

impl ChunkService {
    /// No chunk name repeats in the held set.
    pub open spec fn wf(self) -> bool {
        crate::master::strings_unique(self.server_chunks.deep_view())
    }

    /// A fresh chunkserver state with nothing held and no OTPs.
    pub fn new(
        addr: &str,
        addr_sanitized: &str,
        config: ChunkServerConfig,
        common_config: CommonConfig,
    ) -> (r: ChunkService)
        ensures
            r.wf(),
            r.addr@ == addr@,
            r.addr_sanitized@ == addr_sanitized@,
            r.server_chunks.deep_view() == Seq::<Seq<char>>::empty(),
            r.otp_store.deep_view() == Seq::<(Seq<char>, u64)>::empty(),
            r.config == config,
            r.common_config == common_config,
    {
        let r = ChunkService {
            addr: String::from_str(addr),
            addr_sanitized: String::from_str(addr_sanitized),
            server_chunks: Vec::new(),
            config,
            common_config,
            otp_store: Vec::new(),
        };
        proof {
            assert(r.server_chunks.deep_view() =~= Seq::<Seq<char>>::empty());
            assert(r.otp_store.deep_view() =~= Seq::<(Seq<char>, u64)>::empty());
        }
        r
    }

    /// Records that this server now holds a chunk; holding it already
    /// changes nothing.
    pub fn add_chunk(&mut self, chunk_name: String)
        requires
            old(self).wf(),
        ensures
            final(self).wf(),
            final(self).server_chunks.deep_view() == crate::master::insert_string(
                old(self).server_chunks.deep_view(),
                chunk_name@,
            ),
            final(self).otp_store == old(self).otp_store,
            final(self).addr == old(self).addr,
            final(self).addr_sanitized == old(self).addr_sanitized,
            final(self).config == old(self).config,
            final(self).common_config == old(self).common_config,
    {
        let ghost pre = self.server_chunks.deep_view();
        let present = crate::types::contains_string(&self.server_chunks, &chunk_name);
        if !present {
            self.server_chunks.push(chunk_name);
            proof {
                assert(self.server_chunks.deep_view() =~= pre.push(chunk_name@));
                assert forall|i: int, j: int|
                    0 <= i < j < self.server_chunks.deep_view().len() implies self
                    .server_chunks
                    .deep_view()[i] != self.server_chunks.deep_view()[j] by {
                    if j == pre.len() {
                        assert(!pre.contains(chunk_name@));
                        assert(pre[i] != chunk_name@);
                    }
                }
            }
        }
    }

    /// Forgets a held chunk; returns whether it was held.
    pub fn remove_chunk(&mut self, chunk_name: &String) -> (r: bool)
        requires
            old(self).wf(),
        ensures
            final(self).wf(),
            r == old(self).server_chunks.deep_view().contains(chunk_name@),
            !final(self).server_chunks.deep_view().contains(chunk_name@),
            forall|x: Seq<char>|
                x != chunk_name@ ==> final(self).server_chunks.deep_view().contains(x) == old(
                    self,
                ).server_chunks.deep_view().contains(x),
            final(self).otp_store == old(self).otp_store,
            final(self).addr == old(self).addr,
            final(self).addr_sanitized == old(self).addr_sanitized,
            final(self).config == old(self).config,
            final(self).common_config == old(self).common_config,
    {
        let ghost pre = self.server_chunks.deep_view();
        let mut kept: Vec<String> = Vec::new();
        let n = self.server_chunks.len();
        let mut i: usize = 0;
        let mut found = false;
        proof {
            assert(kept.deep_view() =~= remove_name(pre.subrange(0, 0), chunk_name@));
            assert(!pre.subrange(0, 0).contains(chunk_name@));
        }
        while i < n
            invariant
                n == self.server_chunks@.len(),
                i <= n,
                pre == self.server_chunks.deep_view(),
                found == pre.subrange(0, i as int).contains(chunk_name@),
                kept.deep_view() == remove_name(pre.subrange(0, i as int), chunk_name@),
            decreases n - i,
        {
            let ghost p1 = pre.subrange(0, i as int + 1);
            proof {
                assert(p1.drop_last() =~= pre.subrange(0, i as int));
                assert(p1.last() == pre[i as int]);
            }
            if self.server_chunks[i] == *chunk_name {
                found = true;
                proof {
                    assert(p1[i as int] == chunk_name@);
                    assert(p1.contains(chunk_name@));
                }
            } else {
                let ghost prek = kept.deep_view();
                let a = self.server_chunks[i].clone();
                kept.push(a);
                proof {
                    assert(kept.deep_view() =~= prek.push(a@));
                }
            }
            proof {
                assert(kept.deep_view() =~= remove_name(p1, chunk_name@));
                if !found {
                    if p1.contains(chunk_name@) {
                        let w = choose|w: int| 0 <= w < p1.len() && p1[w] == chunk_name@;
                        if w < i {
                            assert(pre.subrange(0, i as int)[w] == chunk_name@);
                            assert(pre.subrange(0, i as int).contains(chunk_name@));
                        }
                        assert(false);
                    }
                } else {
                    if pre.subrange(0, i as int).contains(chunk_name@) {
                        let w = choose|w: int|
                            0 <= w < i && pre.subrange(0, i as int)[w] == chunk_name@;
                        assert(p1[w] == chunk_name@);
                        assert(p1.contains(chunk_name@));
                    } else {
                        assert(p1.contains(chunk_name@));
                    }
                }
            }
            i = i + 1;
        }
        proof {
            assert(pre.subrange(0, n as int) =~= pre);
        }
        self.server_chunks = kept;
        proof {
            lemma_remove_name(pre, chunk_name@);
        }
        found
    }

    /// The held-set snapshot a heartbeat reports.
    pub fn heartbeat_chunks(&self) -> (r: Vec<String>)
        ensures
            r.deep_view() == self.server_chunks.deep_view(),
    {
        let r = self.server_chunks.clone();
        proof {
            assert(r.deep_view() =~= self.server_chunks.deep_view());
        }
        r
    }

    /// Accepts a freshly minted OTP with its expiry time.
    pub fn register_otp(&mut self, otp: String, expiry: u64)
        ensures
            final(self).otp_store.deep_view() == old(self).otp_store.deep_view().push(
                (otp@, expiry),
            ),
            final(self).server_chunks == old(self).server_chunks,
            final(self).addr == old(self).addr,
            final(self).addr_sanitized == old(self).addr_sanitized,
            final(self).config == old(self).config,
            final(self).common_config == old(self).common_config,
    {
        let ghost pre = self.otp_store.deep_view();
        let e = OtpEntry { key: otp, expiry };
        self.otp_store.push(e);
        proof {
            assert(self.otp_store.deep_view() =~= pre.push(e.deep_view()));
        }
    }

    /// The OTP gate: with authentication off every call passes; with it
    /// on, the OTP must be known and not expired, else `Unauthenticated`.
    pub fn validate_otp(&self, otp: &String, now: u64) -> (r: Result<(), FsError>)
        ensures
            match r {
                Ok(_) => !self.common_config.use_authentication || spec_otp_valid(
                    self.otp_store.deep_view(),
                    otp@,
                    now,
                ),
                Err(e) => e == FsError::Unauthenticated && self.common_config.use_authentication
                    && !spec_otp_valid(self.otp_store.deep_view(), otp@, now),
            },
    {
        if !self.common_config.use_authentication {
            return Ok(());
        }
        let n = self.otp_store.len();
        let mut i: usize = 0;
        while i < n
            invariant
                n == self.otp_store@.len(),
                i <= n,
                forall|j: int|
                    0 <= j < i ==> !((#[trigger] self.otp_store.deep_view()[j]).0 == otp@
                        && self.otp_store.deep_view()[j].1 > now),
            decreases n - i,
        {
            if self.otp_store[i].key == *otp && self.otp_store[i].expiry > now {
                proof {
                    assert(self.otp_store.deep_view()[i as int].0 == otp@);
                }
                return Ok(());
            }
            i = i + 1;
        }
        proof {
            if spec_otp_valid(self.otp_store.deep_view(), otp@, now) {
                let j = choose|j: int|
                    0 <= j < self.otp_store.deep_view().len() && (#[trigger] self
                        .otp_store
                        .deep_view()[j]).0 == otp@ && self.otp_store.deep_view()[j].1 > now;
            }
        }
        Err(FsError::Unauthenticated)
    }

    /// Drops every expired OTP, keeping exactly those still valid.
    pub fn sweep_expired_otps(&mut self, now: u64)
        ensures
            final(self).otp_store.deep_view() == spec_sweep(old(self).otp_store.deep_view(), now),
            final(self).server_chunks == old(self).server_chunks,
            final(self).addr == old(self).addr,
            final(self).addr_sanitized == old(self).addr_sanitized,
            final(self).config == old(self).config,
            final(self).common_config == old(self).common_config,
    {
        let ghost pre = self.otp_store.deep_view();
        let mut kept: Vec<OtpEntry> = Vec::new();
        let n = self.otp_store.len();
        let mut i: usize = 0;
        proof {
            assert(kept.deep_view() =~= spec_sweep(pre.subrange(0, 0), now));
        }
        while i < n
            invariant
                n == self.otp_store@.len(),
                i <= n,
                pre == self.otp_store.deep_view(),
                kept.deep_view() == spec_sweep(pre.subrange(0, i as int), now),
            decreases n - i,
        {
            let ghost p1 = pre.subrange(0, i as int + 1);
            proof {
                assert(p1.drop_last() =~= pre.subrange(0, i as int));
                assert(p1.last() == pre[i as int]);
            }
            if self.otp_store[i].expiry > now {
                kept.push(self.otp_store[i].clone());
            }
            proof {
                assert(kept.deep_view() =~= spec_sweep(p1, now));
            }
            i = i + 1;
        }
        proof {
            assert(pre.subrange(0, n as int) =~= pre);
        }
        self.otp_store = kept;
    }
}

/// The held set without every copy of one name, order kept.
pub open spec fn remove_name(s: Seq<Seq<char>>, x: Seq<char>) -> Seq<Seq<char>>
    decreases s.len(),
{
    if s.len() == 0 {
        Seq::empty()
    } else {
        let rest = remove_name(s.drop_last(), x);
        if s.last() == x {
            rest
        } else {
            rest.push(s.last())
        }
    }
}

/// What survives `remove_name`: exactly the other names, each still once.
pub proof fn lemma_remove_name(s: Seq<Seq<char>>, x: Seq<char>)
    requires
        crate::master::strings_unique(s),
    ensures
        crate::master::strings_unique(remove_name(s, x)),
        !remove_name(s, x).contains(x),
        forall|y: Seq<char>|
            y != x ==> #[trigger] remove_name(s, x).contains(y) == s.contains(y),
    decreases s.len(),
{
    if s.len() > 0 {
        assert(crate::master::strings_unique(s.drop_last()));
        lemma_remove_name(s.drop_last(), x);
        let rest = remove_name(s.drop_last(), x);
        let whole = remove_name(s, x);
        assert forall|i: int| 0 <= i < whole.len() implies s.contains(#[trigger] whole[i])
            && whole[i] != x by {
            if i < rest.len() {
                assert(whole[i] == rest[i]);
                assert(rest.contains(rest[i]));
                assert(rest[i] != x) by {
                    if rest[i] == x {
                        assert(rest.contains(x));
                    }
                }
                let w = choose|w: int| 0 <= w < s.drop_last().len() && s.drop_last()[w]
                    == rest[i];
                assert(s[w] == rest[i]);
            } else {
                assert(whole[i] == s.last());
                assert(s[s.len() - 1] == s.last());
            }
        }
        assert forall|a: int, b: int| 0 <= a < b < whole.len() implies whole[a] != whole[b] by {
            let pa = whole[a];
            let pb = whole[b];
            assert(s.contains(pa) && s.contains(pb));
            if pa == pb {
                if b == whole.len() - 1 && whole == rest.push(s.last()) {
                    assert(rest[a] == pa);
                    assert(rest.contains(pa));
                    let ja = choose|w: int| 0 <= w < s.drop_last().len() && s.drop_last()[w]
                        == pa;
                    assert(s[ja] == pa && ja < s.len() - 1);
                    assert(s[ja] != s[s.len() - 1]);
                } else {
                    assert(rest[a] == pa && rest[b] == pb);
                    assert(rest[a] != rest[b]);
                }
            }
        }
        if whole.contains(x) {
            let w = choose|w: int| 0 <= w < whole.len() && whole[w] == x;
        }
        assert forall|y: Seq<char>| y != x implies #[trigger] whole.contains(y) == s.contains(
            y,
        ) by {
            if s.contains(y) {
                let w = choose|w: int| 0 <= w < s.len() && s[w] == y;
                if w == s.len() - 1 {
                    assert(s.last() == y);
                    assert(whole == rest.push(y));
                    assert(whole[whole.len() - 1] == y);
                    assert(whole.contains(y));
                } else {
                    assert(s.drop_last()[w] == y);
                    assert(s.drop_last().contains(y));
                    assert(rest.contains(y));
                    let v = choose|v: int| 0 <= v < rest.len() && rest[v] == y;
                    assert(whole[v] == y);
                    assert(whole.contains(y));
                }
            }
            if whole.contains(y) {
                let w = choose|w: int| 0 <= w < whole.len() && whole[w] == y;
                assert(s.contains(whole[w]));
            }
        }
    }
}

} // verus!
