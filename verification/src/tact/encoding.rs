//! The paged encoding table: content keys resolve to the encoding keys they
//! are stored under, and encoding keys to a format-description string.

use std::collections::HashMap;
use vstd::prelude::*;

use crate::bytes::{be_uint, byte_chars, nul_at, read_exact, read_u8, read_uint_be, read_uint128_be};
use crate::{md5, md5_of, read_asciiz, Error};

verus! {

broadcast use vstd::std_specs::hash::group_hash_axioms;

/// What the table knows of one content key.
pub ghost struct CeModel {
    pub c_size: int,
    pub e_keys: Seq<u128>,
}

/// What the table knows of one encoding key.
pub ghost struct EsModel {
    pub e_size: int,
    pub e_spec: Seq<char>,
}

struct EncodingCEKeyEntry {
    c_key: u128,
    c_size: u64,
    e_keys: Vec<u128>,
}

impl View for EncodingCEKeyEntry {
    type V = CeModel;

    closed spec fn view(&self) -> CeModel {
        CeModel { c_size: self.c_size as int, e_keys: self.e_keys@ }
    }
}

struct EncodingEKeySpecEntry {
    e_key: u128,
    e_size: u64,
    e_spec: String,
}

impl View for EncodingEKeySpecEntry {
    type V = EsModel;

    closed spec fn view(&self) -> EsModel {
        EsModel { e_size: self.e_size as int, e_spec: self.e_spec@ }
    }
}


/// The whole parsed table, at the level of the byte model.
pub ghost struct EncModel {
    pub ce: Map<u128, CeModel>,
    pub es: Map<u128, EsModel>,
}

/// The NUL-terminated strings of the spec-string block from `p` on; a
/// trailing piece without a terminator is dropped.
pub open spec fn specs_of(block: Seq<u8>, p: int) -> Seq<Seq<char>>
    decreases block.len() - p,
    via specs_of_dec
{
    match nul_at(block, p) {
        None => Seq::empty(),
        Some(e) => seq![byte_chars(block.subrange(p, e))] + specs_of(block, e + 1),
    }
}

#[via_fn]
proof fn specs_of_dec(block: Seq<u8>, p: int) {
    crate::bytes::lemma_nul_at_range(block, p);
}

/// One content-key entry at `p`: a key count, a 5-byte size, the content
/// key, then that many encoding keys; `None` when the page ends first.
pub open spec fn parse_ce(page: Seq<u8>, p: int) -> Option<(u128, CeModel, int)> {
    if p < 0 || p + 22 > page.len() {
        None
    } else {
        let cnt = page[p] as int;
        if p + 22 + 16 * cnt > page.len() {
            None
        } else {
            Some(
                (
                    be_uint(page, p + 6, 16) as u128,
                    CeModel {
                        c_size: be_uint(page, p + 1, 5),
                        e_keys: Seq::new(
                            cnt as nat,
                            |t: int| be_uint(page, p + 22 + 16 * t, 16) as u128,
                        ),
                    },
                    p + 22 + 16 * cnt,
                ),
            )
        }
    }
}

/// Every content-key entry of a page from `p` on, folded into `m`; a later
/// entry under the same key wins.
pub open spec fn ce_fold(page: Seq<u8>, p: int, m: Map<u128, CeModel>) -> Map<u128, CeModel>
    decreases page.len() - p,
{
    match parse_ce(page, p) {
        None => m,
        Some((k, e, q)) => ce_fold(page, q, m.insert(k, e)),
    }
}

/// One encoding-key entry at `p`: the key, an index into the spec strings
/// (out of range means the empty string), and a 5-byte size.
pub open spec fn parse_es(page: Seq<u8>, p: int, especs: Seq<Seq<char>>) -> Option<
    (u128, EsModel, int),
> {
    if p < 0 || p + 25 > page.len() {
        None
    } else {
        let idx = be_uint(page, p + 16, 4);
        Some(
            (
                be_uint(page, p, 16) as u128,
                EsModel {
                    e_size: be_uint(page, p + 20, 5),
                    e_spec: if idx < especs.len() {
                        especs[idx]
                    } else {
                        Seq::empty()
                    },
                },
                p + 25,
            ),
        )
    }
}

/// Every encoding-key entry of a page from `p` on, folded into `m`.
pub open spec fn es_fold(
    page: Seq<u8>,
    p: int,
    especs: Seq<Seq<char>>,
    m: Map<u128, EsModel>,
) -> Map<u128, EsModel>
    decreases page.len() - p,
{
    match parse_es(page, p, especs) {
        None => m,
        Some((k, e, q)) => es_fold(page, q, especs, m.insert(k, e)),
    }
}

/// How reading and folding the content-key pages from `i` on ends: each
/// page must be whole and match the digest in its table row at `tbl`.
pub open spec fn ce_pages_outcome(
    d: Seq<u8>,
    tbl: int,
    pstart: int,
    psz: int,
    i: int,
    n: int,
    m: Map<u128, CeModel>,
) -> Result<Map<u128, CeModel>, Error>
    decreases n - i,
{
    if i >= n {
        Ok(m)
    } else if pstart + (i + 1) * psz > d.len() {
        Err(Error::Io)
    } else {
        let page = d.subrange(pstart + i * psz, pstart + (i + 1) * psz);
        if be_uint(d, tbl + 32 * i + 16, 16) != be_uint(md5_of(page), 0, 16) {
            Err(Error::IntegrityError)
        } else {
            ce_pages_outcome(d, tbl, pstart, psz, i + 1, n, ce_fold(page, 0, m))
        }
    }
}

/// How reading and folding the encoding-key pages from `i` on ends.
pub open spec fn es_pages_outcome(
    d: Seq<u8>,
    tbl: int,
    pstart: int,
    psz: int,
    i: int,
    n: int,
    especs: Seq<Seq<char>>,
    m: Map<u128, EsModel>,
) -> Result<Map<u128, EsModel>, Error>
    decreases n - i,
{
    if i >= n {
        Ok(m)
    } else if pstart + (i + 1) * psz > d.len() {
        Err(Error::Io)
    } else {
        let page = d.subrange(pstart + i * psz, pstart + (i + 1) * psz);
        if be_uint(d, tbl + 32 * i + 16, 16) != be_uint(md5_of(page), 0, 16) {
            Err(Error::IntegrityError)
        } else {
            es_pages_outcome(d, tbl, pstart, psz, i + 1, n, especs, es_fold(page, 0, especs, m))
        }
    }
}

/// How parsing the whole encoding table ends: the `EN` header with 16-byte
/// keys, the spec-string block, the two page index tables, then the two
/// runs of hash-verified pages.
pub open spec fn enc_outcome(d: Seq<u8>) -> Result<EncModel, Error> {
    if d.len() < 2 {
        Err(Error::Io)
    } else if be_uint(d, 0, 2) != 0x454E {
        Err(Error::Unsupported)
    } else if d.len() < 3 {
        Err(Error::Io)
    } else if d[2] != 1 {
        Err(Error::Unsupported)
    } else if d.len() < 4 {
        Err(Error::Io)
    } else if d[3] != 16 {
        Err(Error::Unsupported)
    } else if d.len() < 5 {
        Err(Error::Io)
    } else if d[4] != 16 {
        Err(Error::Unsupported)
    } else if d.len() < 18 {
        Err(Error::Io)
    } else if d[17] != 0 {
        Err(Error::Unsupported)
    } else if d.len() < 22 {
        Err(Error::Io)
    } else if d.len() < 22 + be_uint(d, 18, 4) {
        Err(Error::Io)
    } else {
        let sl = be_uint(d, 18, 4);
        let especs = specs_of(d.subrange(22, 22 + sl), 0);
        let cepsz = be_uint(d, 5, 2) * 1024;
        let espsz = be_uint(d, 7, 2) * 1024;
        let cecount = be_uint(d, 9, 4);
        let escount = be_uint(d, 13, 4);
        let tbl1 = 22 + sl;
        if d.len() < tbl1 + 32 * cecount {
            Err(Error::Io)
        } else {
            let p1 = tbl1 + 32 * cecount;
            match ce_pages_outcome(d, tbl1, p1, cepsz, 0, cecount, Map::empty()) {
                Err(e) => Err(e),
                Ok(cem) => {
                    let tbl2 = p1 + cecount * cepsz;
                    if d.len() < tbl2 + 32 * escount {
                        Err(Error::Io)
                    } else {
                        let p2 = tbl2 + 32 * escount;
                        match es_pages_outcome(
                            d,
                            tbl2,
                            p2,
                            espsz,
                            0,
                            escount,
                            especs,
                            Map::empty(),
                        ) {
                            Err(e) => Err(e),
                            Ok(esm) => Ok(EncModel { ce: cem, es: esm }),
                        }
                    }
                },
            }
        }
    }
}

/// One row of a page index table: the page's first key and its digest.
struct EncodingPage {
    first_key: u128,
    md5: u128,
}

impl EncodingPage {
    fn decode(d: &[u8], pos: &mut usize) -> (r: Result<EncodingPage, Error>)
        ensures
            *old(pos) + 32 <= d@.len() ==> *final(pos) == *old(pos) + 32 && (r matches Ok(pg)
                && pg.first_key == be_uint(d@, *old(pos) as int, 16) && pg.md5 == be_uint(
                d@,
                *old(pos) + 16,
                16,
            )),
            *old(pos) + 32 > d@.len() ==> r is Err,
    {
        let first_key = read_uint128_be(d, pos, 16)?;
        let md5 = read_uint128_be(d, pos, 16)?;
        Ok(EncodingPage { first_key, md5 })
    }
}

impl EncodingCEKeyEntry {
    fn decode(d: &[u8], pos: &mut usize) -> (r: Result<EncodingCEKeyEntry, Error>)
        ensures
            match parse_ce(d@, *old(pos) as int) {
                Some((k, cm, q)) => *final(pos) == q && (r matches Ok(e) && e.c_key == k && e@
                    == cm),
                None => r is Err,
            },
    {
        let e_key_count = read_u8(d, pos)?;
        let c_size = read_uint_be(d, pos, 5)?;
        let c_key = read_uint128_be(d, pos, 16)?;
        let ghost p = *old(pos) as int;
        let mut e_keys: Vec<u128> = Vec::new();
        let mut t: usize = 0;
        while t < e_key_count as usize
            invariant
                t <= e_key_count,
                p == *old(pos) as int,
                *pos == p + 22 + 16 * t,
                *pos <= d@.len(),
                e_keys@.len() == t,
                p + 22 <= d@.len(),
                e_key_count == d@[p],
                forall|s: int| 0 <= s < t ==> e_keys@[s] == be_uint(d@, p + 22 + 16 * s, 16) as u128,
            decreases e_key_count - t,
        {
            let k = match read_uint128_be(d, pos, 16) {
                Ok(v) => v,
                Err(_) => {
                    proof {
                        assert(16 * (t as int + 1) <= 16 * (e_key_count as int));
                        assert(p + 22 + 16 * (e_key_count as int) > d@.len());
                        assert(parse_ce(d@, p) is None);
                    }
                    return Err(Error::Io);
                },
            };
            e_keys.push(k as u128);
            t = t + 1;
        }
        proof {
            assert(parse_ce(d@, p) is Some) by {
                assert(p + 22 + 16 * (e_key_count as int) == *pos);
            }
            let (gk, gcm, gq) = parse_ce(d@, p)->Some_0;
            assert(e_keys@ =~= gcm.e_keys);
        }
        Ok(EncodingCEKeyEntry { c_key, c_size, e_keys })
    }
}

impl EncodingEKeySpecEntry {
    fn decode(d: &[u8], pos: &mut usize, e_specs: &Vec<String>) -> (r: Result<
        EncodingEKeySpecEntry,
        Error,
    >)
        ensures
            match parse_es(d@, *old(pos) as int, e_specs.deep_view()) {
                Some((k, em, q)) => *final(pos) == q && (r matches Ok(e) && e.e_key == k && e@
                    == em),
                None => r is Err,
            },
    {
        let e_key = read_uint128_be(d, pos, 16)?;
        let idx = read_uint_be(d, pos, 4)?;
        let e_size = read_uint_be(d, pos, 5)?;
        let e_spec = if idx < e_specs.len() as u64 {
            e_specs[idx as usize].clone()
        } else {
            String::new()
        };
        Ok(EncodingEKeySpecEntry { e_key, e_size, e_spec })
    }
}

/// The parsed encoding table.
pub struct Encoding {
    c_e_keys: HashMap<u128, EncodingCEKeyEntry>,
    e_key_specs: HashMap<u128, EncodingEKeySpecEntry>,
}

impl Encoding {
    /// The content-key table: each known content key's size and the
    /// encoding keys it may be stored under, first one canonical.
    pub closed spec fn ce_map(&self) -> Map<u128, CeModel> {
        self.c_e_keys@.map_values(|e: EncodingCEKeyEntry| e@)
    }

    /// The encoding-key table: each known encoding key's stored size and
    /// format-description string.
    pub closed spec fn es_map(&self) -> Map<u128, EsModel> {
        self.e_key_specs@.map_values(|e: EncodingEKeySpecEntry| e@)
    }

    /// The canonical encoding key for a content key: the first one listed.
    /// A content key the table does not hold, or one listed with no
    /// encoding keys, is `None`, not an error.
    pub fn get(&self, key: u128) -> (r: Option<u128>)
        ensures
            r == if self.ce_map().contains_key(key) && self.ce_map()[key].e_keys.len() > 0 {
                Some(self.ce_map()[key].e_keys[0])
            } else {
                None::<u128>
            },
    {
        match self.c_e_keys.get(&key) {
            Some(e) => {
                if e.e_keys.len() > 0 {
                    Some(e.e_keys[0])
                } else {
                    None
                }
            },
            None => None,
        }
    }
}

/// The header fields and table bounds that every later phase of the parse
/// relies on.
pub open spec fn enc_preamble(d: Seq<u8>) -> bool {
    &&& d.len() >= 22
    &&& be_uint(d, 0, 2) == 0x454E
    &&& d[2] == 1
    &&& d[3] == 16
    &&& d[4] == 16
    &&& d[17] == 0
    &&& d.len() >= 22 + be_uint(d, 18, 4)
}

impl Encoding {
    /// Parses the whole encoding table.
    ///
    /// The result holds exactly the entries of the hash-verified pages, a
    /// later page's entry replacing an earlier one under the same key, as
    /// the byte model `enc_outcome` states; any failing check ends the
    /// parse with that check's error.
    pub fn decode(d: &[u8]) -> (r: Result<Encoding, Error>)
        ensures
            match enc_outcome(d@) {
                Ok(m) => r matches Ok(enc) && enc.ce_map() == m.ce && enc.es_map() == m.es,
                Err(e) => r matches Err(e2) && e2 == e,
            },
    {
        let mut pos: usize = 0;
        let magic = match read_uint_be(d, &mut pos, 2) {
            Ok(v) => v,
            Err(_) => {
                return Err(Error::Io);
            },
        };
        if magic != 0x454E {
            return Err(Error::Unsupported);
        }
        let version = match read_u8(d, &mut pos) {
            Ok(v) => v,
            Err(_) => {
                return Err(Error::Io);
            },
        };
        if version != 1 {
            return Err(Error::Unsupported);
        }
        let c_key_size = match read_u8(d, &mut pos) {
            Ok(v) => v,
            Err(_) => {
                return Err(Error::Io);
            },
        };
        if c_key_size != 16 {
            return Err(Error::Unsupported);
        }
        let e_key_size = match read_u8(d, &mut pos) {
            Ok(v) => v,
            Err(_) => {
                return Err(Error::Io);
            },
        };
        if e_key_size != 16 {
            return Err(Error::Unsupported);
        }
        let c_e_key_page_size = match read_uint_be(d, &mut pos, 2) {
            Ok(v) => v,
            Err(_) => {
                return Err(Error::Io);
            },
        };
        let e_key_spec_page_size = match read_uint_be(d, &mut pos, 2) {
            Ok(v) => v,
            Err(_) => {
                return Err(Error::Io);
            },
        };
        let c_e_key_page_count = match read_uint_be(d, &mut pos, 4) {
            Ok(v) => v,
            Err(_) => {
                return Err(Error::Io);
            },
        };
        let e_key_spec_page_count = match read_uint_be(d, &mut pos, 4) {
            Ok(v) => v,
            Err(_) => {
                return Err(Error::Io);
            },
        };
        let zero = match read_u8(d, &mut pos) {
            Ok(v) => v,
            Err(_) => {
                return Err(Error::Io);
            },
        };
        if zero != 0 {
            return Err(Error::Unsupported);
        }
        let sl64 = match read_uint_be(d, &mut pos, 4) {
            Ok(v) => v,
            Err(_) => {
                return Err(Error::Io);
            },
        };
        proof {
            crate::bytes::lemma_be_uint_bound(d@, 18, 4);
            crate::bytes::lemma_be_uint_bound(d@, 9, 4);
            crate::bytes::lemma_be_uint_bound(d@, 13, 4);
            crate::bytes::lemma_be_uint_bound(d@, 5, 2);
            crate::bytes::lemma_be_uint_bound(d@, 7, 2);
            crate::bytes::lemma_pow256_values();
        }
        let sl = sl64 as usize;
        let e_spec_block = match read_exact(d, &mut pos, sl) {
            Ok(v) => v,
            Err(_) => {
                return Err(Error::Io);
            },
        };
        let ghost gsb = e_spec_block@;
        let mut e_specs: Vec<String> = Vec::new();
        let mut spos: usize = 0;
        proof {
            assert(e_specs.deep_view() + specs_of(gsb, 0) =~= specs_of(gsb, 0));
        }
        loop
            invariant
                spos <= gsb.len(),
                gsb == e_spec_block@,
                e_specs.deep_view() + specs_of(gsb, spos as int) == specs_of(gsb, 0),
            ensures
                e_specs.deep_view() == specs_of(gsb, 0),
            decreases gsb.len() - spos,
        {
            let ghost sp0 = spos as int;
            let ghost prev = e_specs.deep_view();
            match read_asciiz(e_spec_block.as_slice(), &mut spos) {
                Ok(sv) => {
                    proof {
                        crate::bytes::lemma_nul_at_range(gsb, sp0);
                    }
                    e_specs.push(sv);
                    proof {
                        assert(e_specs.deep_view() =~= prev.push(
                            byte_chars(gsb.subrange(sp0, spos - 1)),
                        ));
                        assert(prev.push(byte_chars(gsb.subrange(sp0, spos - 1))) + specs_of(
                            gsb,
                            spos as int,
                        ) =~= prev + specs_of(gsb, sp0));
                    }
                },
                Err(_) => {
                    proof {
                        assert(specs_of(gsb, sp0) =~= Seq::<Seq<char>>::empty());
                        assert(e_specs.deep_view() + specs_of(gsb, sp0) =~= e_specs.deep_view());
                    }
                    break ;
                },
            }
        }
        let ghost gespecs = e_specs.deep_view();
        let ghost gsl = sl as int;
        let ghost gtbl1 = 22 + gsl;
        let ghost gcecount = c_e_key_page_count as int;
        let ghost gescount = e_key_spec_page_count as int;
        let ghost gcepsz = (c_e_key_page_size as int) * 1024;
        let ghost gespsz = (e_key_spec_page_size as int) * 1024;
        proof {
            assert(gespecs == specs_of(d@.subrange(22, 22 + gsl), 0));
        }

        let mut c_e_key_pages: Vec<EncodingPage> = Vec::new();
        let mut i: usize = 0;
        while i < c_e_key_page_count as usize
            invariant
                i <= gcecount,
                enc_preamble(d@),
                gsl == be_uint(d@, 18, 4),
                gtbl1 == 22 + gsl,
                gcecount == be_uint(d@, 9, 4),
                gcecount == c_e_key_page_count,
                pos == gtbl1 + 32 * i,
                pos <= d@.len(),
                c_e_key_pages@.len() == i,
                forall|j: int|
                    0 <= j < i ==> (#[trigger] c_e_key_pages@[j]).md5 == be_uint(
                        d@,
                        gtbl1 + 32 * j + 16,
                        16,
                    ),
            decreases gcecount - i,
        {
            let pg = match EncodingPage::decode(d, &mut pos) {
                Ok(v) => v,
                Err(_) => {
                    proof {
                        assert(32 * (i + 1) <= 32 * gcecount) by (nonlinear_arith)
                            requires
                                i + 1 <= gcecount,
                        ;
                        assert(d@.len() < gtbl1 + 32 * gcecount);
                    }
                    return Err(Error::Io);
                },
            };
            c_e_key_pages.push(pg);
            i = i + 1;
        }
        proof {
            assert(d@.len() >= gtbl1 + 32 * gcecount);
        }

        let ghost gp1 = gtbl1 + 32 * gcecount;
        let mut c_e_keys: HashMap<u128, EncodingCEKeyEntry> = HashMap::new();
        let cepsz = (c_e_key_page_size as usize) * 1024;
        let mut i: usize = 0;
        proof {
            assert(c_e_keys@.map_values(|e: EncodingCEKeyEntry| e@) =~= Map::<
                u128,
                CeModel,
            >::empty());
        }
        while i < c_e_key_page_count as usize
            invariant
                i <= gcecount,
                enc_preamble(d@),
                gsl == be_uint(d@, 18, 4),
                gtbl1 == 22 + gsl,
                gcecount == be_uint(d@, 9, 4),
                gcecount == c_e_key_page_count,
                gcepsz == be_uint(d@, 5, 2) * 1024,
                cepsz == gcepsz,
                gp1 == gtbl1 + 32 * gcecount,
                d@.len() >= gp1,
                pos == gp1 + i * gcepsz,
                pos <= d@.len(),
                c_e_key_pages@.len() == gcecount,
                forall|j: int|
                    0 <= j < gcecount ==> (#[trigger] c_e_key_pages@[j]).md5 == be_uint(
                        d@,
                        gtbl1 + 32 * j + 16,
                        16,
                    ),
                ce_pages_outcome(
                    d@,
                    gtbl1,
                    gp1,
                    gcepsz,
                    i as int,
                    gcecount,
                    c_e_keys@.map_values(|e: EncodingCEKeyEntry| e@),
                ) == ce_pages_outcome(
                    d@,
                    gtbl1,
                    gp1,
                    gcepsz,
                    0,
                    gcecount,
                    Map::<u128, CeModel>::empty(),
                ),
            decreases gcecount - i,
        {
            let ghost gi = i as int;
            proof {
                assert((gi + 1) * gcepsz == gi * gcepsz + gcepsz) by (nonlinear_arith);
            }
            let page = match read_exact(d, &mut pos, cepsz) {
                Ok(v) => v,
                Err(_) => {
                    return Err(Error::Io);
                },
            };
            let ghost gpage = d@.subrange(gp1 + gi * gcepsz, gp1 + (gi + 1) * gcepsz);
            proof {
                assert(page@ == gpage);
            }
            let digest = md5(page.as_slice());
            if c_e_key_pages[i].md5 != digest {
                proof {
                    assert(ce_pages_outcome(
                        d@,
                        gtbl1,
                        gp1,
                        gcepsz,
                        gi,
                        gcecount,
                        c_e_keys@.map_values(|e: EncodingCEKeyEntry| e@),
                    ) == Err::<Map<u128, CeModel>, Error>(Error::IntegrityError));
                }
                return Err(Error::IntegrityError);
            }
            let ghost m_enter = c_e_keys@.map_values(|e: EncodingCEKeyEntry| e@);
            let mut epos: usize = 0;
            loop
                invariant_except_break
                    epos <= gpage.len(),
                    ce_fold(gpage, epos as int, c_e_keys@.map_values(|e: EncodingCEKeyEntry| e@))
                        == ce_fold(gpage, 0, m_enter),
                invariant
                    gpage == page@,
                ensures
                    c_e_keys@.map_values(|e: EncodingCEKeyEntry| e@) == ce_fold(
                        gpage,
                        0,
                        m_enter,
                    ),
                decreases gpage.len() - epos,
            {
                let ghost ep0 = epos as int;
                let ghost prev = c_e_keys@.map_values(|e: EncodingCEKeyEntry| e@);
                match EncodingCEKeyEntry::decode(page.as_slice(), &mut epos) {
                    Ok(e) => {
                        let ghost ge = e@;
                        let ghost gk = e.c_key;
                        c_e_keys.insert(e.c_key, e);
                        proof {
                            assert(c_e_keys@.map_values(|e: EncodingCEKeyEntry| e@)
                                =~= prev.insert(gk, ge));
                        }
                    },
                    Err(_) => {
                        proof {
                            assert(parse_ce(gpage, ep0) is None);
                            assert(ce_fold(gpage, ep0, prev) == prev);
                        }
                        break ;
                    },
                }
            }
            i = i + 1;
        }

        let ghost gtbl2 = gp1 + gcecount * gcepsz;
        let ghost gcem = c_e_keys@.map_values(|e: EncodingCEKeyEntry| e@);
        proof {
            assert(pos == gtbl2);
            assert(ce_pages_outcome(
                d@,
                gtbl1,
                gp1,
                gcepsz,
                0,
                gcecount,
                Map::<u128, CeModel>::empty(),
            ) == Ok::<Map<u128, CeModel>, Error>(gcem));
        }

        let mut e_key_spec_pages: Vec<EncodingPage> = Vec::new();
        let mut i: usize = 0;
        while i < e_key_spec_page_count as usize
            invariant
                i <= gescount,
                enc_preamble(d@),
                gsl == be_uint(d@, 18, 4),
                gtbl1 == 22 + gsl,
                gcecount == be_uint(d@, 9, 4),
                gcecount == c_e_key_page_count,
                gescount == be_uint(d@, 13, 4),
                gescount == e_key_spec_page_count,
                gcepsz == be_uint(d@, 5, 2) * 1024,
                gp1 == gtbl1 + 32 * gcecount,
                d@.len() >= gp1,
                gtbl2 == gp1 + gcecount * gcepsz,
                gcem == ce_pages_outcome(
                    d@,
                    gtbl1,
                    gp1,
                    gcepsz,
                    0,
                    gcecount,
                    Map::<u128, CeModel>::empty(),
                )->Ok_0,
                ce_pages_outcome(
                    d@,
                    gtbl1,
                    gp1,
                    gcepsz,
                    0,
                    gcecount,
                    Map::<u128, CeModel>::empty(),
                ) is Ok,
                pos == gtbl2 + 32 * i,
                pos <= d@.len(),
                e_key_spec_pages@.len() == i,
                forall|j: int|
                    0 <= j < i ==> (#[trigger] e_key_spec_pages@[j]).md5 == be_uint(
                        d@,
                        gtbl2 + 32 * j + 16,
                        16,
                    ),
            decreases gescount - i,
        {
            let pg = match EncodingPage::decode(d, &mut pos) {
                Ok(v) => v,
                Err(_) => {
                    proof {
                        assert(32 * (i + 1) <= 32 * gescount) by (nonlinear_arith)
                            requires
                                i + 1 <= gescount,
                        ;
                        assert(d@.len() < gtbl2 + 32 * gescount);
                    }
                    return Err(Error::Io);
                },
            };
            e_key_spec_pages.push(pg);
            i = i + 1;
        }

        let ghost gp2 = gtbl2 + 32 * gescount;
        proof {
            crate::bytes::lemma_be_uint_bound(d@, 13, 4);
            crate::bytes::lemma_pow256_values();
            assert(pos == gp2);
        }
        let mut e_key_specs: HashMap<u128, EncodingEKeySpecEntry> = HashMap::new();
        let espsz = (e_key_spec_page_size as usize) * 1024;
        let mut i: usize = 0;
        proof {
            assert(e_key_specs@.map_values(|e: EncodingEKeySpecEntry| e@) =~= Map::<
                u128,
                EsModel,
            >::empty());
            assert((i as int) * gespsz == 0) by (nonlinear_arith)
                requires
                    i == 0,
            ;
        }
        while i < e_key_spec_page_count as usize
            invariant
                i <= gescount,
                enc_preamble(d@),
                gsl == be_uint(d@, 18, 4),
                gtbl1 == 22 + gsl,
                gcecount == be_uint(d@, 9, 4),
                gcecount == c_e_key_page_count,
                gescount == be_uint(d@, 13, 4),
                gescount == e_key_spec_page_count,
                gcepsz == be_uint(d@, 5, 2) * 1024,
                gespsz == be_uint(d@, 7, 2) * 1024,
                espsz == gespsz,
                gp1 == gtbl1 + 32 * gcecount,
                d@.len() >= gp1,
                gtbl2 == gp1 + gcecount * gcepsz,
                gp2 == gtbl2 + 32 * gescount,
                gespecs == specs_of(d@.subrange(22, 22 + gsl), 0),
                gespecs == e_specs.deep_view(),
                gcem == ce_pages_outcome(
                    d@,
                    gtbl1,
                    gp1,
                    gcepsz,
                    0,
                    gcecount,
                    Map::<u128, CeModel>::empty(),
                )->Ok_0,
                ce_pages_outcome(
                    d@,
                    gtbl1,
                    gp1,
                    gcepsz,
                    0,
                    gcecount,
                    Map::<u128, CeModel>::empty(),
                ) is Ok,
                gcem == c_e_keys@.map_values(|e: EncodingCEKeyEntry| e@),
                d@.len() >= gp2,
                pos == gp2 + i * gespsz,
                pos <= d@.len(),
                e_key_spec_pages@.len() == gescount,
                forall|j: int|
                    0 <= j < gescount ==> (#[trigger] e_key_spec_pages@[j]).md5 == be_uint(
                        d@,
                        gtbl2 + 32 * j + 16,
                        16,
                    ),
                es_pages_outcome(
                    d@,
                    gtbl2,
                    gp2,
                    gespsz,
                    i as int,
                    gescount,
                    gespecs,
                    e_key_specs@.map_values(|e: EncodingEKeySpecEntry| e@),
                ) == es_pages_outcome(
                    d@,
                    gtbl2,
                    gp2,
                    gespsz,
                    0,
                    gescount,
                    gespecs,
                    Map::<u128, EsModel>::empty(),
                ),
            decreases gescount - i,
        {
            let ghost gi = i as int;
            proof {
                assert((gi + 1) * gespsz == gi * gespsz + gespsz) by (nonlinear_arith);
            }
            let page = match read_exact(d, &mut pos, espsz) {
                Ok(v) => v,
                Err(_) => {
                    return Err(Error::Io);
                },
            };
            let ghost gpage = d@.subrange(gp2 + gi * gespsz, gp2 + (gi + 1) * gespsz);
            proof {
                assert(page@ == gpage);
            }
            let digest = md5(page.as_slice());
            if e_key_spec_pages[i].md5 != digest {
                proof {
                    assert(es_pages_outcome(
                        d@,
                        gtbl2,
                        gp2,
                        gespsz,
                        gi,
                        gescount,
                        gespecs,
                        e_key_specs@.map_values(|e: EncodingEKeySpecEntry| e@),
                    ) == Err::<Map<u128, EsModel>, Error>(Error::IntegrityError));
                }
                return Err(Error::IntegrityError);
            }
            let ghost m_enter = e_key_specs@.map_values(|e: EncodingEKeySpecEntry| e@);
            let mut epos: usize = 0;
            loop
                invariant_except_break
                    epos <= gpage.len(),
                    es_fold(
                        gpage,
                        epos as int,
                        gespecs,
                        e_key_specs@.map_values(|e: EncodingEKeySpecEntry| e@),
                    ) == es_fold(gpage, 0, gespecs, m_enter),
                invariant
                    gpage == page@,
                    gespecs == e_specs.deep_view(),
                ensures
                    e_key_specs@.map_values(|e: EncodingEKeySpecEntry| e@) == es_fold(
                        gpage,
                        0,
                        gespecs,
                        m_enter,
                    ),
                decreases gpage.len() - epos,
            {
                let ghost ep0 = epos as int;
                let ghost prev = e_key_specs@.map_values(|e: EncodingEKeySpecEntry| e@);
                match EncodingEKeySpecEntry::decode(page.as_slice(), &mut epos, &e_specs) {
                    Ok(e) => {
                        let ghost ge = e@;
                        let ghost gk = e.e_key;
                        e_key_specs.insert(e.e_key, e);
                        proof {
                            assert(e_key_specs@.map_values(|e: EncodingEKeySpecEntry| e@)
                                =~= prev.insert(gk, ge));
                        }
                    },
                    Err(_) => {
                        proof {
                            assert(parse_es(gpage, ep0, gespecs) is None);
                            assert(es_fold(gpage, ep0, gespecs, prev) == prev);
                        }
                        break ;
                    },
                }
            }
            i = i + 1;
        }

        let enc = Encoding { c_e_keys, e_key_specs };
        proof {
            assert(es_pages_outcome(
                d@,
                gtbl2,
                gp2,
                gespsz,
                0,
                gescount,
                gespecs,
                Map::<u128, EsModel>::empty(),
            ) == Ok::<Map<u128, EsModel>, Error>(enc.es_map()));
            assert(enc.ce_map() == gcem);
        }
        Ok(enc)
    }
}

} // verus!
