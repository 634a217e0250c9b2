//! Export and import of alias snapshots: the payload assembly and the
//! import validation. Reading, writing and the JSON encoding of the
//! snapshot happen outside; this module owns the rules.
use vstd::prelude::*;

use crate::aliases::AliasView;
use crate::aliases::GitAlias;
use crate::aliases::views_of;
use crate::clock::now_epoch_seconds;
use crate::text::dec_spec;
use crate::text::dec_u64;

verus! {

/// A decimal rendering padded with leading zeros up to `w` digits.
pub open spec fn pad_spec(n: int, w: int) -> Seq<char> {
    let ds = dec_spec(n);
    if ds.len() >= w {
        ds
    } else {
        "000"@.subrange(0, w - ds.len()) + ds
    }
}

/// Render `n` zero-padded to `w` digits (more when it does not fit).
fn pad_dec(n: u64, w: usize) -> (r: String)
    requires
        1 <= w <= 4,
    ensures
        r@ == pad_spec(n as int, w as int),
{
    let zeros = "000";
    proof {
        reveal_strlit("000");
    }
    let ds = dec_u64(n);
    let dl = ds.as_str().unicode_len();
    if dl >= w {
        ds
    } else {
        let mut r = zeros.substring_char(0, w - dl).to_owned();
        r.append(ds.as_str());
        r
    }
}

/// The calendar date of a day count since 1970-01-01, by era decomposition.
/// The two guarded subtractions never go negative on real dates; the guards
/// only keep the function total.
pub open spec fn civil_date(days: int) -> (int, int, int) {
    let z = days + 719468;
    let era = z / 146097;
    let doe = z % 146097;
    let yoe = (doe - doe / 1460 + doe / 36524 - doe / 146096) / 365;
    let y = yoe + era * 400;
    let base = 365 * yoe + yoe / 4 - yoe / 100;
    let doy = if doe >= base {
        doe - base
    } else {
        0
    };
    let mp = (5 * doy + 2) / 153;
    let dq = (153 * mp + 2) / 5;
    let d = (if doy >= dq {
        doy - dq
    } else {
        0
    }) + 1;
    let m = if mp < 10 {
        mp + 3
    } else {
        mp - 9
    };
    let y2 = if m <= 2 {
        y + 1
    } else {
        y
    };
    (y2, m, d)
}

proof fn lemma_pad_len(n: int, w: int)
    requires
        n >= 0,
        1 <= w <= 4,
        dec_spec(n).len() <= w,
    ensures
        pad_spec(n, w).len() == w,
{
    crate::text::lemma_dec_len(n);
    reveal_strlit("000");
}

/// The calendar components stay within four digits for the year and two for
/// the month and day, up to the last day of year 9999.
proof fn lemma_civil_date_bounds(days: int)
    requires
        0 <= days <= 2932896,
    ensures
        ({
            let (y, m, d) = civil_date(days);
            0 <= y <= 9999 && 0 <= m <= 99 && 0 <= d <= 99
        }),
{
    let z = days + 719468;
    let era = z / 146097;
    let doe = z % 146097;
    assert(z <= 3652364);
    assert(0 <= era <= 24);
    assert(0 <= doe <= 146096);
    let t = doe - doe / 1460 + doe / 36524 - doe / 146096;
    let yoe = t / 365;
    assert(doe / 1460 <= 100);
    assert(doe / 36524 <= 4);
    assert(doe / 146096 <= 1);
    assert(0 <= t <= 146100);
    assert(0 <= yoe <= 400);
    let y = yoe + era * 400;
    let base = 365 * yoe + yoe / 4 - yoe / 100;
    let doy = if doe >= base {
        doe - base
    } else {
        0
    };
    // the day of the era never runs more than 469 past the year's start
    assert(365 * yoe >= t - 364);
    assert(base >= t - 368);
    assert(t >= doe - doe / 1460 - 1);
    assert(doy <= 469);
    let mp = (5 * doy + 2) / 153;
    assert(0 <= mp <= 15);
    let dq = (153 * mp + 2) / 5;
    let d = (if doy >= dq {
        doy - dq
    } else {
        0
    }) + 1;
    // the start-of-month correction stays within a month of the day count
    assert(153 * mp >= 5 * doy + 2 - 152);
    assert(5 * dq >= 153 * mp + 2 - 4);
    assert(d <= 32);
    let m = if mp < 10 {
        mp + 3
    } else {
        mp - 9
    };
    assert(1 <= m <= 18);
    let y2 = if m <= 2 {
        y + 1
    } else {
        y
    };
    if era <= 23 {
        assert(y2 <= 9601);
    } else {
        assert(era == 24);
        assert(doe <= 146036);
        assert(doe - doe / 1460 <= 145936);
        assert(doe / 36524 <= 3);
        assert(t <= 145939);
        assert(yoe <= 399);
        if yoe == 399 {
            assert(base == 145731);
            assert(doy <= 305);
            assert(mp <= 9);
            assert(m >= 3);
            assert(y2 == y);
            assert(y2 <= 9999);
        } else {
            assert(y <= 398 + 9600);
            assert(y2 <= 9999);
        }
    }
    assert(y2 >= 0);
}

/// Up to the last second of year 9999, the rendering is exactly the 20
/// characters `YYYY-MM-DDTHH:MM:SSZ`; beyond that the year field grows.
pub proof fn lemma_iso_len(secs: int)
    requires
        0 <= secs < 253402300800,
    ensures
        iso_spec(secs).len() == 20,
{
    let days = secs / 86400;
    let sid = secs % 86400;
    assert(0 <= days <= 2932896);
    assert(0 <= sid <= 86399);
    lemma_civil_date_bounds(days);
    let (y, m, d) = civil_date(days);
    crate::text::lemma_dec_len(y);
    crate::text::lemma_dec_len(m);
    crate::text::lemma_dec_len(d);
    crate::text::lemma_dec_len(sid / 3600);
    crate::text::lemma_dec_len((sid % 3600) / 60);
    crate::text::lemma_dec_len(sid % 60);
    lemma_pad_len(y, 4);
    lemma_pad_len(m, 2);
    lemma_pad_len(d, 2);
    lemma_pad_len(sid / 3600, 2);
    lemma_pad_len((sid % 3600) / 60, 2);
    lemma_pad_len(sid % 60, 2);
    reveal_strlit("-");
    reveal_strlit("T");
    reveal_strlit(":");
    reveal_strlit("Z");
}

/// Every rendering ends in the UTC marker.
pub proof fn lemma_iso_ends_z(secs: int)
    ensures
        iso_spec(secs).len() >= 1,
        iso_spec(secs)[iso_spec(secs).len() - 1] == 'Z',
{
    reveal_strlit("Z");
}

/// The ISO 8601 timestamp text of an epoch-second count, in UTC:
/// `YYYY-MM-DDTHH:MM:SSZ`.
pub open spec fn iso_spec(secs: int) -> Seq<char> {
    let days = secs / 86400;
    let sid = secs % 86400;
    let (y, m, d) = civil_date(days);
    pad_spec(y, 4) + "-"@ + pad_spec(m, 2) + "-"@ + pad_spec(d, 2) + "T"@ + pad_spec(sid / 3600, 2)
        + ":"@ + pad_spec((sid % 3600) / 60, 2) + ":"@ + pad_spec(sid % 60, 2) + "Z"@
}

/// Render the ISO 8601 timestamp of an epoch-second count.
pub fn iso8601_of(secs: u64) -> (r: String)
    ensures
        r@ == iso_spec(secs as int),
        secs < 253402300800 ==> r@.len() == 20,
{
    proof {
        if secs < 253402300800 {
            lemma_iso_len(secs as int);
        }
    }
    let days = secs / 86400;
    let sid = secs % 86400;
    let z = days + 719468;
    let era = z / 146097;
    let doe = z % 146097;
    proof {
        assert(doe / 146096 <= doe / 1460) by (nonlinear_arith)
            requires
                doe >= 0,
        ;
        assert(doe / 36524 <= doe / 1460) by (nonlinear_arith)
            requires
                doe >= 0,
        ;
    }
    let yoe = (doe - doe / 1460 + doe / 36524 - doe / 146096) / 365;
    proof {
        assert(yoe <= doe) by (nonlinear_arith)
            requires
                doe >= 0,
                yoe == (doe - doe / 1460 + doe / 36524 - doe / 146096) / 365,
                doe - doe / 1460 + doe / 36524 - doe / 146096 <= 2 * doe,
        ;
        assert(doe < 146097);
        assert(era <= z);
    }
    let y = yoe + era * 400;
    let base = 365 * yoe + yoe / 4 - yoe / 100;
    let doy = if doe >= base {
        doe - base
    } else {
        0
    };
    let mp = (5 * doy + 2) / 153;
    let dq = (153 * mp + 2) / 5;
    let d = (if doy >= dq {
        doy - dq
    } else {
        0
    }) + 1;
    let m = if mp < 10 {
        mp + 3
    } else {
        mp - 9
    };
    let y2 = if m <= 2 {
        y + 1
    } else {
        y
    };
    let mut r = pad_dec(y2, 4);
    r.append("-");
    let p = pad_dec(m, 2);
    r.append(p.as_str());
    r.append("-");
    let p = pad_dec(d, 2);
    r.append(p.as_str());
    r.append("T");
    let p = pad_dec(sid / 3600, 2);
    r.append(p.as_str());
    r.append(":");
    let p = pad_dec((sid % 3600) / 60, 2);
    r.append(p.as_str());
    r.append(":");
    let p = pad_dec(sid % 60, 2);
    r.append(p.as_str());
    r.append("Z");
    proof {
        assert(r@ =~= iso_spec(secs as int));
    }
    r
}

/// The ISO 8601 timestamp of the moment of the call, in UTC.
pub fn iso8601_now() -> (r: String)
    ensures
        exists|t: int| 0 <= t && r@ == iso_spec(t),
{
    let t = now_epoch_seconds();
    let r = iso8601_of(t);
    proof {
        assert(0 <= t as int && r@ == iso_spec(t as int));
    }
    r
}

/// An alias snapshot ready to be encoded and written.
pub struct ExportData {
    pub version: String,
    pub exported_at: String,
    pub aliases: Vec<GitAlias>,
}

/// Handles the rules of alias snapshot export and import; the surrounding
/// application does the file I/O and the JSON encoding.
pub struct FileService;

/// The first import complaint, scanning front to back: a record without a
/// name, then one without a command.
pub open spec fn first_import_error(s: Seq<AliasView>) -> Option<Seq<char>>
    decreases s.len(),
{
    if s.len() == 0 {
        Option::None
    } else if s[0].name.len() == 0 {
        Option::Some("Invalid alias: missing or invalid \"name\" field"@)
    } else if s[0].command.len() == 0 {
        Option::Some(
            "Invalid alias \""@ + s[0].name + "\": missing or invalid \"command\" field"@,
        )
    } else {
        first_import_error(s.drop_first())
    }
}

/// The records with an empty scope defaulted to `global`.
pub open spec fn defaulted_scopes(s: Seq<AliasView>) -> Seq<AliasView> {
    Seq::new(
        s.len(),
        |i: int|
            AliasView {
                name: s[i].name,
                command: s[i].command,
                scope: if s[i].scope.len() == 0 {
                    "global"@
                } else {
                    s[i].scope
                },
                local_path: s[i].local_path,
                score: s[i].score,
            },
    )
}

impl FileService {
    /// Assemble a snapshot around the given alias records; the caller
    /// encodes it and writes it where the user chose.
    pub fn export_aliases(aliases: Vec<GitAlias>) -> (r: ExportData)
        ensures
            r.version@ == "1.0.0"@,
            exists|t: int| 0 <= t && r.exported_at@ == iso_spec(t),
            r.aliases@ == aliases@,
    {
        ExportData { version: "1.0.0".to_owned(), exported_at: iso8601_now(), aliases }
    }

    /// Validate records decoded from a snapshot and default missing scopes:
    /// the first record without a name or without a command is refused with
    /// its message.
    pub fn import_aliases(list: Vec<GitAlias>) -> (r: Result<Vec<GitAlias>, String>)
        ensures
            match r {
                Result::Ok(v) => first_import_error(views_of(list@)) is None && views_of(v@)
                    == defaulted_scopes(views_of(list@)),
                Result::Err(e) => first_import_error(views_of(list@)) == Option::Some(e@),
            },
    {
        let ghost vs = views_of(list@);
        let mut i: usize = 0;
        proof {
            assert(vs.skip(0) =~= vs);
        }
        while i < list.len()
            invariant
                vs == views_of(list@),
                i <= list@.len(),
                first_import_error(vs) == first_import_error(vs.skip(i as int)),
                forall|p: int| 0 <= p < i ==> vs[p].name.len() != 0 && vs[p].command.len() != 0,
            decreases list@.len() - i,
        {
            proof {
                assert(vs.skip(i as int)[0] == vs[i as int]);
                assert(vs.skip(i as int).drop_first() =~= vs.skip(i as int + 1));
            }
            if list[i].name.as_str().unicode_len() == 0 {
                return Result::Err("Invalid alias: missing or invalid \"name\" field".to_owned());
            }
            if list[i].command.as_str().unicode_len() == 0 {
                let mut msg = "Invalid alias \"".to_owned();
                msg.append(list[i].name.as_str());
                msg.append("\": missing or invalid \"command\" field");
                proof {
                    assert(msg@ =~= "Invalid alias \""@ + vs[i as int].name
                        + "\": missing or invalid \"command\" field"@);
                }
                return Result::Err(msg);
            }
            i += 1;
        }
        proof {
            assert(vs.skip(vs.len() as int) =~= Seq::<AliasView>::empty());
        }
        let mut v = list;
        let mut j: usize = 0;
        while j < v.len()
            invariant
                v@.len() == vs.len(),
                j <= vs.len(),
                forall|p: int| j <= p < v@.len() ==> v@[p]@ == vs[p],
                forall|p: int| 0 <= p < j ==> views_of(v@)[p] == defaulted_scopes(vs)[p],
            decreases v@.len() - j,
        {
            let ghost lpre = v@;
            if v[j].scope.as_str().unicode_len() == 0 {
                v[j].scope = "global".to_owned();
            }
            j += 1;
            proof {
                assert forall|p: int|
                    0 <= p < j implies views_of(v@)[p] == defaulted_scopes(vs)[p] by {
                    if p < j - 1 {
                        assert(v@[p] == lpre[p]);
                        assert(views_of(lpre)[p] == defaulted_scopes(vs)[p]);
                    } else {
                        assert(lpre[p]@ == vs[p]);
                    }
                }
                assert forall|p: int| j <= p < v@.len() implies v@[p]@ == vs[p] by {
                    assert(v@[p] == lpre[p]);
                }
            }
        }
        proof {
            assert(views_of(v@) =~= defaulted_scopes(vs));
        }
        Result::Ok(v)
    }
}

} // verus!
