//! The `RTP-Info` header value: a per-URL triple with the canonical text
//! `url=<url>[;seq=<u16>][;rtptime=<u32>]`. The `url` field is mandatory
//! and first; `seq` and `rtptime` each appear at most once; any other
//! parameter, and any segment past the third, is a parse error.

use vstd::prelude::*;
use crate::error::Error;

verus! {

/// A parsed `RTP-Info` entry.
#[derive(Debug)]
pub struct RtpInfo {
    pub url: String,
    pub seq: Option<u16>,
    pub rtptime: Option<u32>,
}

/// The mathematical model of an entry.
pub struct RtpInfoModel {
    pub url: Seq<char>,
    pub seq: Option<u16>,
    pub rtptime: Option<u32>,
}

impl View for RtpInfo {
    type V = RtpInfoModel;

    open spec fn view(&self) -> RtpInfoModel {
        RtpInfoModel { url: self.url@, seq: self.seq, rtptime: self.rtptime }
    }
}

impl RtpInfo {
    /// An entry with a URL alone.
    pub fn new(url: &str) -> (r: RtpInfo)
        ensures
            r@.url == url@,
            r@.seq is None,
            r@.rtptime is None,
    {
        RtpInfo { url: url.to_owned(), seq: None, rtptime: None }
    }

    /// An entry with URL, sequence number and RTP timestamp.
    pub fn new_with_timing(url: &str, seq: u16, rtptime: u32) -> (r: RtpInfo)
        ensures
            r@.url == url@,
            r@.seq == Some(seq),
            r@.rtptime == Some(rtptime),
    {
        RtpInfo { url: url.to_owned(), seq: Some(seq), rtptime: Some(rtptime) }
    }

    /// This entry with the sequence number set.
    pub fn with_seq(self, seq: u16) -> (r: RtpInfo)
        ensures
            r@.url == self@.url,
            r@.seq == Some(seq),
            r@.rtptime == self@.rtptime,
    {
        RtpInfo { url: self.url, seq: Some(seq), rtptime: self.rtptime }
    }

    /// This entry with the RTP timestamp set.
    pub fn with_rtptime(self, rtptime: u32) -> (r: RtpInfo)
        ensures
            r@.url == self@.url,
            r@.seq == self@.seq,
            r@.rtptime == Some(rtptime),
    {
        RtpInfo { url: self.url, seq: self.seq, rtptime: Some(rtptime) }
    }
}

/// A decimal digit character.
pub open spec fn is_digit_char(c: char) -> bool {
    48 <= (c as u32) <= 57
}

/// A nonempty, all-digit character numeral.
pub open spec fn is_digits_chars(s: Seq<char>) -> bool {
    s.len() > 0 && forall|j: int| 0 <= j < s.len() ==> is_digit_char(#[trigger] s[j])
}

/// The value of a digit character string.
pub open spec fn dec_value_chars(s: Seq<char>) -> int
    decreases s.len(),
{
    if s.len() == 0 {
        0
    } else {
        dec_value_chars(s.drop_last()) * 10 + ((s.last() as u32) - 48)
    }
}

/// The canonical decimal numeral of `n`, as characters.
pub open spec fn dec_chars(n: nat) -> Seq<char> {
    crate::scan::dec_digits(n).map_values(|b: u8| b as char)
}

/// Index of the first occurrence of `c` in `s`; `s.len()` when absent.
pub open spec fn find_char(s: Seq<char>, c: char) -> nat
    decreases s.len(),
{
    if s.len() == 0 {
        0
    } else if s[0] == c {
        0
    } else {
        (1 + find_char(s.drop_first(), c)) as nat
    }
}

pub proof fn lemma_find_char_is(s: Seq<char>, c: char, k: int)
    requires
        0 <= k <= s.len(),
        forall|j: int| 0 <= j < k ==> s[j] != c,
        k < s.len() ==> s[k] == c,
        k == s.len() ==> forall|j: int| 0 <= j < s.len() ==> s[j] != c,
    ensures
        find_char(s, c) == k,
    decreases s.len(),
{
    if s.len() > 0 && s[0] != c {
        assert forall|j: int| 0 <= j < k - 1 implies s.drop_first()[j] != c by {
            assert(s[j + 1] != c);
        }
        lemma_find_char_is(s.drop_first(), c, k - 1);
    }
}

/// How a parse failure reads, over character sequences.
pub ghost enum RtpErrModel {
    UrlMissing(Seq<char>),
    ParamInvalid(Seq<char>),
    ParamUnknown(Seq<char>),
    ParamUnexpected(Seq<char>),
}

/// Whether the executable error carries exactly this failure.
pub open spec fn rtp_err_matches(e: Error, m: RtpErrModel) -> bool {
    match m {
        RtpErrModel::UrlMissing(v) => e matches Error::RtpInfoUrlMissing { value } && value@ == v,
        RtpErrModel::ParamInvalid(v) => e matches Error::RtpInfoParameterInvalid { value }
            && value@ == v,
        RtpErrModel::ParamUnknown(v) => e matches Error::RtpInfoParameterUnknown { value }
            && value@ == v,
        RtpErrModel::ParamUnexpected(v) => e matches Error::RtpInfoParameterUnexpected { value }
            && value@ == v,
    }
}

/// One `seq=` or `rtptime=` parameter applied to a partial entry. A
/// repeated parameter is rejected: each appears at most once.
pub open spec fn param_apply(info: RtpInfoModel, part: Seq<char>) -> Result<
    RtpInfoModel,
    RtpErrModel,
> {
    if part.len() >= 4 && part.take(4) == "seq="@ {
        let num = part.skip(4);
        if !(is_digits_chars(num) && dec_value_chars(num) <= 0xffff) {
            Err(RtpErrModel::ParamInvalid(part))
        } else if info.seq is Some {
            Err(RtpErrModel::ParamUnexpected(part))
        } else {
            Ok(
                RtpInfoModel {
                    url: info.url,
                    seq: Some(dec_value_chars(num) as u16),
                    rtptime: info.rtptime,
                },
            )
        }
    } else if part.len() >= 8 && part.take(8) == "rtptime="@ {
        let num = part.skip(8);
        if !(is_digits_chars(num) && dec_value_chars(num) <= 0xffff_ffff) {
            Err(RtpErrModel::ParamInvalid(part))
        } else if info.rtptime is Some {
            Err(RtpErrModel::ParamUnexpected(part))
        } else {
            Ok(
                RtpInfoModel {
                    url: info.url,
                    seq: info.seq,
                    rtptime: Some(dec_value_chars(num) as u32),
                },
            )
        }
    } else {
        Err(RtpErrModel::ParamUnknown(part))
    }
}

/// The whole grammar: `url=` first, then at most two parameters, then
/// nothing.
pub open spec fn rtp_parse(s: Seq<char>) -> Result<RtpInfoModel, RtpErrModel> {
    let p1 = find_char(s, ';') as int;
    let first = s.take(p1);
    if !(first.len() >= 4 && first.take(4) == "url="@) {
        Err(RtpErrModel::ParamUnknown(first))
    } else {
        let info0 = RtpInfoModel { url: first.skip(4), seq: None, rtptime: None };
        if p1 >= s.len() {
            Ok(info0)
        } else {
            let rest1 = s.skip(p1 + 1);
            let p2 = find_char(rest1, ';') as int;
            match param_apply(info0, rest1.take(p2)) {
                Err(e) => Err(e),
                Ok(info1) => {
                    if p2 >= rest1.len() {
                        Ok(info1)
                    } else {
                        let rest2 = rest1.skip(p2 + 1);
                        let p3 = find_char(rest2, ';') as int;
                        match param_apply(info1, rest2.take(p3)) {
                            Err(e) => Err(e),
                            Ok(info2) => {
                                if p3 >= rest2.len() {
                                    Ok(info2)
                                } else {
                                    let rest3 = rest2.skip(p3 + 1);
                                    let p4 = find_char(rest3, ';') as int;
                                    Err(RtpErrModel::ParamUnexpected(rest3.take(p4)))
                                }
                            },
                        }
                    }
                },
            }
        }
    }
}

pub proof fn lemma_dec_value_chars_nonneg(s: Seq<char>)
    requires
        forall|j: int| 0 <= j < s.len() ==> is_digit_char(#[trigger] s[j]),
    ensures
        dec_value_chars(s) >= 0,
    decreases s.len(),
{
    if s.len() > 0 {
        assert(forall|j: int|
            0 <= j < s.drop_last().len() ==> is_digit_char(#[trigger] s.drop_last()[j]));
        lemma_dec_value_chars_nonneg(s.drop_last());
    }
}

pub proof fn lemma_dec_value_chars_monotone(s: Seq<char>, k: int)
    requires
        forall|j: int| 0 <= j < s.len() ==> is_digit_char(#[trigger] s[j]),
        0 <= k <= s.len(),
    ensures
        0 <= dec_value_chars(s.take(k)) <= dec_value_chars(s),
    decreases s.len() - k,
{
    if k == s.len() {
        assert(s.take(k) =~= s);
        lemma_dec_value_chars_nonneg(s);
    } else {
        lemma_dec_value_chars_monotone(s, k + 1);
        assert(s.take(k + 1).drop_last() =~= s.take(k));
        assert(forall|j: int| 0 <= j < k ==> is_digit_char(#[trigger] s.take(k)[j]));
        lemma_dec_value_chars_nonneg(s.take(k));
    }
}

/// First occurrence of `c` at or after `from`, as a character index;
/// the length when absent.
fn find_char_in(s: &str, from: usize, c: char) -> (r: usize)
    requires
        from <= s@.len(),
    ensures
        r == from + find_char(s@.skip(from as int), c),
        r <= s@.len(),
{
    let n = s.unicode_len();
    let mut i: usize = from;
    while i < n
        invariant
            from <= i <= n,
            n == s@.len(),
            forall|j: int| from <= j < i ==> s@[j] != c,
        decreases n - i,
    {
        if s.get_char(i) == c {
            proof {
                let rest = s@.skip(from as int);
                assert forall|j: int| 0 <= j < i - from implies rest[j] != c by {
                    assert(rest[j] == s@[j + from]);
                }
                lemma_find_char_is(rest, c, i - from);
            }
            return i;
        }
        i += 1;
    }
    proof {
        let rest = s@.skip(from as int);
        assert forall|j: int| 0 <= j < rest.len() implies rest[j] != c by {
            assert(rest[j] == s@[j + from]);
        }
        lemma_find_char_is(rest, c, rest.len() as int);
    }
    n
}

/// The number in the character range `[a, b)`, refused above `limit`
/// or on any non-digit.
fn parse_num_range(s: &str, a: usize, b: usize, limit: u32) -> (r: Option<u32>)
    requires
        a <= b <= s@.len(),
    ensures
        ({
            let num = s@.subrange(a as int, b as int);
            match r {
                Some(v) => is_digits_chars(num) && dec_value_chars(num) <= limit && v
                    == dec_value_chars(num),
                None => !(is_digits_chars(num) && dec_value_chars(num) <= limit),
            }
        }),
{
    let ghost num = s@.subrange(a as int, b as int);
    if a == b {
        return None;
    }
    let mut val: u64 = 0;
    let mut i: usize = a;
    proof {
        assert(num.take(0) =~= Seq::<char>::empty());
    }
    while i < b
        invariant
            a <= i <= b <= s@.len(),
            b > a,
            num == s@.subrange(a as int, b as int),
            forall|j: int| 0 <= j < i - a ==> is_digit_char(#[trigger] num[j]),
            val == dec_value_chars(num.take(i - a)),
            val <= limit,
        decreases b - i,
    {
        let c = s.get_char(i);
        let d = c as u32;
        if d < 48 || d > 57 {
            proof {
                assert(num[i - a] == s@[i as int]);
            }
            return None;
        }
        proof {
            assert(num[i - a] == s@[i as int]);
            assert(num.take(i - a + 1).drop_last() =~= num.take(i - a));
            assert(num.take(i - a + 1).last() == num[i - a]);
        }
        let next: u64 = val * 10 + (d - 48) as u64;
        if next > limit as u64 {
            proof {
                assert(forall|j: int|
                    0 <= j < num.take(i - a + 1).len() ==> is_digit_char(
                        #[trigger] num.take(i - a + 1)[j],
                    ));
                if is_digits_chars(num) {
                    lemma_dec_value_chars_monotone(num, i - a + 1);
                }
            }
            return None;
        }
        val = next;
        i += 1;
    }
    proof {
        assert(num.take(b - a) =~= num);
    }
    Some(val as u32)
}

/// Whether the character range `[a, b)` starts with the literal.
fn range_has_prefix(s: &str, a: usize, b: usize, lit: &str) -> (r: bool)
    requires
        a <= b <= s@.len(),
    ensures
        r == ({
            let part = s@.subrange(a as int, b as int);
            part.len() >= lit@.len() && part.take(lit@.len() as int) == lit@
        }),
{
    let k = lit.unicode_len();
    if b - a < k {
        return false;
    }
    let ghost part = s@.subrange(a as int, b as int);
    let mut i: usize = 0;
    while i < k
        invariant
            a <= b <= s@.len(),
            k == lit@.len() <= b - a,
            0 <= i <= k,
            part == s@.subrange(a as int, b as int),
            forall|j: int| 0 <= j < i ==> part[j] == lit@[j],
        decreases k - i,
    {
        if s.get_char(a + i) != lit.get_char(i) {
            proof {
                assert(part[i as int] == s@[a + i]);
            }
            return false;
        }
        proof {
            assert(part[i as int] == s@[a + i]);
        }
        i += 1;
    }
    proof {
        assert(part.take(k as int) =~= lit@);
    }
    true
}

/// One parameter of the range `[a, b)` applied to a partial entry.
fn apply_param_range(s: &str, a: usize, b: usize, info: RtpInfo) -> (r: Result<RtpInfo, Error>)
    requires
        a <= b <= s@.len(),
    ensures
        ({
            let part = s@.subrange(a as int, b as int);
            match r {
                Ok(i2) => param_apply(info@, part) == Ok::<RtpInfoModel, RtpErrModel>(i2@),
                Err(e) => param_apply(info@, part) matches Err(m) && rtp_err_matches(e, m),
            }
        }),
{
    let ghost part = s@.subrange(a as int, b as int);
    proof {
        reveal_strlit("seq=");
        reveal_strlit("rtptime=");
    }
    if range_has_prefix(s, a, b, "seq=") {
        proof {
            assert(part.skip(4) =~= s@.subrange(a + 4, b as int));
        }
        match parse_num_range(s, a + 4, b, 0xffff) {
            None => Err(
                Error::RtpInfoParameterInvalid { value: s.substring_char(a, b).to_owned() },
            ),
            Some(v) => {
                if info.seq.is_some() {
                    Err(
                        Error::RtpInfoParameterUnexpected {
                            value: s.substring_char(a, b).to_owned(),
                        },
                    )
                } else {
                    Ok(RtpInfo { url: info.url, seq: Some(v as u16), rtptime: info.rtptime })
                }
            },
        }
    } else if range_has_prefix(s, a, b, "rtptime=") {
        proof {
            assert(part.skip(8) =~= s@.subrange(a + 8, b as int));
        }
        match parse_num_range(s, a + 8, b, 0xffff_ffff) {
            None => Err(
                Error::RtpInfoParameterInvalid { value: s.substring_char(a, b).to_owned() },
            ),
            Some(v) => {
                if info.rtptime.is_some() {
                    Err(
                        Error::RtpInfoParameterUnexpected {
                            value: s.substring_char(a, b).to_owned(),
                        },
                    )
                } else {
                    Ok(RtpInfo { url: info.url, seq: info.seq, rtptime: Some(v) })
                }
            },
        }
    } else {
        Err(Error::RtpInfoParameterUnknown { value: s.substring_char(a, b).to_owned() })
    }
}

/// Parses the canonical text of an `RTP-Info` entry.
pub fn parse_rtp_info(s: &str) -> (r: Result<RtpInfo, Error>)
    ensures
        match r {
            Ok(info) => rtp_parse(s@) == Ok::<RtpInfoModel, RtpErrModel>(info@),
            Err(e) => rtp_parse(s@) matches Err(m) && rtp_err_matches(e, m),
        },
{
    let n = s.unicode_len();
    proof {
        reveal_strlit("url=");
        assert(s@.skip(0) =~= s@);
    }
    let p1 = find_char_in(s, 0, ';');
    proof {
        assert(s@.subrange(0, p1 as int) =~= s@.take(p1 as int));
    }
    if !range_has_prefix(s, 0, p1, "url=") {
        return Err(Error::RtpInfoParameterUnknown { value: s.substring_char(0, p1).to_owned() });
    }
    let url = s.substring_char(4, p1).to_owned();
    let info0 = RtpInfo { url, seq: None, rtptime: None };
    proof {
        assert(info0@.url =~= s@.take(p1 as int).skip(4));
    }
    if p1 == n {
        return Ok(info0);
    }
    let ghost rest1 = s@.skip(p1 + 1);
    let p2 = find_char_in(s, p1 + 1, ';');
    proof {
        assert(s@.subrange(p1 + 1, p2 as int) =~= rest1.take(p2 - (p1 + 1)));
    }
    let info1 = match apply_param_range(s, p1 + 1, p2, info0) {
        Ok(i) => i,
        Err(e) => {
            return Err(e);
        },
    };
    if p2 == n {
        return Ok(info1);
    }
    let ghost rest2 = s@.skip(p2 + 1);
    let p3 = find_char_in(s, p2 + 1, ';');
    proof {
        assert(rest1.skip((p2 - (p1 + 1)) + 1) =~= rest2);
        assert(s@.subrange(p2 + 1, p3 as int) =~= rest2.take(p3 - (p2 + 1)));
    }
    let info2 = match apply_param_range(s, p2 + 1, p3, info1) {
        Ok(i) => i,
        Err(e) => {
            return Err(e);
        },
    };
    if p3 == n {
        return Ok(info2);
    }
    let p4 = find_char_in(s, p3 + 1, ';');
    proof {
        let rest3 = s@.skip(p3 + 1);
        assert(rest2.skip((p3 - (p2 + 1)) + 1) =~= rest3);
        assert(s@.subrange(p3 + 1, p4 as int) =~= rest3.take(p4 - (p3 + 1)));
    }
    Err(Error::RtpInfoParameterUnexpected { value: s.substring_char(p3 + 1, p4).to_owned() })
}

/// The canonical decimal numeral, as a `String`.
pub fn dec_string(n: usize) -> (r: String)
    ensures
        r@ == dec_chars(n as nat),
{
    proof {
        reveal_strlit("0");
        reveal_strlit("1");
        reveal_strlit("2");
        reveal_strlit("3");
        reveal_strlit("4");
        reveal_strlit("5");
        reveal_strlit("6");
        reveal_strlit("7");
        reveal_strlit("8");
        reveal_strlit("9");
        crate::scan::lemma_dec_round_trip(n as nat);
    }
    let bytes = crate::scan::dec_vec(n);
    let mut out = String::new();
    let k = bytes.len();
    let mut i: usize = 0;
    while i < k
        invariant
            k == bytes@.len(),
            0 <= i <= k,
            bytes@ == crate::scan::dec_digits(n as nat),
            crate::scan::is_digits(bytes@),
            out@ =~= dec_chars(n as nat).take(i as int),
        decreases k - i,
    {
        let b = bytes[i];
        proof {
            assert(crate::scan::is_digit(bytes@[i as int]));
            reveal_strlit("0");
            reveal_strlit("1");
            reveal_strlit("2");
            reveal_strlit("3");
            reveal_strlit("4");
            reveal_strlit("5");
            reveal_strlit("6");
            reveal_strlit("7");
            reveal_strlit("8");
            reveal_strlit("9");
        }
        let d: &str = if b == 48 {
            "0"
        } else if b == 49 {
            "1"
        } else if b == 50 {
            "2"
        } else if b == 51 {
            "3"
        } else if b == 52 {
            "4"
        } else if b == 53 {
            "5"
        } else if b == 54 {
            "6"
        } else if b == 55 {
            "7"
        } else if b == 56 {
            "8"
        } else {
            "9"
        };
        out.append(d);
        proof {
            assert(d@ =~= seq![b as char]);
            assert(dec_chars(n as nat)[i as int] == b as char);
            assert(out@ =~= dec_chars(n as nat).take(i + 1));
        }
        i += 1;
    }
    proof {
        assert(dec_chars(n as nat).take(k as int) =~= dec_chars(n as nat));
    }
    out
}

impl RtpInfo {
    /// The canonical text of this entry, in place of `Display`.
    pub fn display_string(&self) -> (r: String)
        ensures
            r@ == rtp_text(self@),
    {
        proof {
            reveal_strlit("url=");
            reveal_strlit(";seq=");
            reveal_strlit(";rtptime=");
        }
        let mut out = String::from_str("url=");
        out.append(self.url.as_str());
        match self.seq {
            Some(v) => {
                out.append(";seq=");
                let digits = dec_string(v as usize);
                out.append(digits.as_str());
            },
            None => {},
        }
        match self.rtptime {
            Some(v) => {
                out.append(";rtptime=");
                let digits = dec_string(v as usize);
                out.append(digits.as_str());
            },
            None => {},
        }
        proof {
            assert(out@ =~= rtp_text(self@));
        }
        out
    }
}

/// The canonical text of an entry: `url=` first, then `;seq=` if
/// present, then `;rtptime=` if present.
pub open spec fn rtp_text(m: RtpInfoModel) -> Seq<char> {
    "url="@ + m.url + (match m.seq {
        Some(v) => ";seq="@ + dec_chars(v as nat),
        None => Seq::<char>::empty(),
    }) + (match m.rtptime {
        Some(v) => ";rtptime="@ + dec_chars(v as nat),
        None => Seq::<char>::empty(),
    })
}

} // verus!
