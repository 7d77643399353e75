//! Package records parsed from a `Packages` index document.
//!
//! Each paragraph of the control file becomes one [`Package`]. Known field
//! names are mapped case-sensitively into the record; a missing string field
//! degrades to the empty string, a missing or non-numeric size field to zero,
//! and a missing optional field to `None`. Field-level degradation never
//! fails the parse; only a structural error (a malformed line) or invalid
//! UTF-8 rejects the whole document.

use vstd::prelude::*;

use crate::control;
use crate::control::{
    Field, fields_view, paras_view, spec_parse_control, spec_serialize_fields, push_field_line,
    lemma_serialize_fields_push, lemma_fields_round_trip, wf_key, wf_value, wf_fields,
};
use crate::decimal::{spec_parse_u64, parse_u64, u64_dec, format_u64, lemma_u64_dec_parses, is_digit};
use vstd::utf8::{valid_utf8, decode_utf8};

verus! {

/// Why a document failed to parse: it was not valid UTF-8 text, or a line of
/// it fit neither the `Key: value` shape nor a blank or continuation line.
#[derive(Debug, Clone, Copy, PartialEq, Eq, Structural)]
pub enum ParseControlError {
    Utf8,
    ParseError,
}

/// One parsed package record.
#[derive(Debug, Clone)]
pub struct Package {
    pub package: String,
    pub architecture: String,
    pub version: String,
    pub section: String,
    pub install_size: u64,
    pub maintainer: String,
    pub filename: String,
    pub size: u64,
    pub sha256: String,
    pub description: String,
    pub depends: Option<String>,
    pub provides: Option<String>,
    pub conflicts: Option<String>,
    pub replaces: Option<String>,
    pub breaks: Option<String>,
    pub featres: Option<String>,
}

/// The mathematical content of a [`Package`].
pub ghost struct PackageV {
    pub package: Seq<char>,
    pub architecture: Seq<char>,
    pub version: Seq<char>,
    pub section: Seq<char>,
    pub install_size: u64,
    pub maintainer: Seq<char>,
    pub filename: Seq<char>,
    pub size: u64,
    pub sha256: Seq<char>,
    pub description: Seq<char>,
    pub depends: Option<Seq<char>>,
    pub provides: Option<Seq<char>>,
    pub conflicts: Option<Seq<char>>,
    pub replaces: Option<Seq<char>>,
    pub breaks: Option<Seq<char>>,
    pub featres: Option<Seq<char>>,
}

impl View for Package {
    type V = PackageV;

    open spec fn view(&self) -> PackageV {
        PackageV {
            package: self.package@,
            architecture: self.architecture@,
            version: self.version@,
            section: self.section@,
            install_size: self.install_size,
            maintainer: self.maintainer@,
            filename: self.filename@,
            size: self.size,
            sha256: self.sha256@,
            description: self.description@,
            depends: self.depends.deep_view(),
            provides: self.provides.deep_view(),
            conflicts: self.conflicts.deep_view(),
            replaces: self.replaces.deep_view(),
            breaks: self.breaks.deep_view(),
            featres: self.featres.deep_view(),
        }
    }
}

/// The ordered collection of records parsed from one document.
#[derive(Debug)]
pub struct Packages(pub Vec<Package>);

/// The views of a sequence of records.
pub open spec fn records_view(ps: Seq<Package>) -> Seq<PackageV> {
    ps.map_values(|p: Package| p@)
}

impl View for Packages {
    type V = Seq<PackageV>;

    open spec fn view(&self) -> Seq<PackageV> {
        records_view(self.0@)
    }
}

/// The value of the first field named `k` in a paragraph, in field order.
pub open spec fn first_val(fs: Seq<(Seq<char>, Seq<char>)>, k: Seq<char>) -> Option<Seq<char>>
    decreases fs.len(),
{
    if fs.len() == 0 {
        None
    } else if fs.first().0 == k {
        Some(fs.first().1)
    } else {
        first_val(fs.drop_first(), k)
    }
}

/// A required string field: the first value under `k`, or empty when absent.
pub open spec fn str_field(fs: Seq<(Seq<char>, Seq<char>)>, k: Seq<char>) -> Seq<char> {
    match first_val(fs, k) {
        Some(v) => v,
        None => Seq::<char>::empty(),
    }
}

/// A numeric field: the first value under `k` read as decimal, or zero when
/// the field is absent or its text is not a number.
pub open spec fn num_field(fs: Seq<(Seq<char>, Seq<char>)>, k: Seq<char>) -> u64 {
    match first_val(fs, k) {
        Some(v) => match spec_parse_u64(v) {
            Some(n) => n,
            None => 0,
        },
        None => 0,
    }
}

/// The record that one paragraph denotes.
pub open spec fn spec_record_of(fs: Seq<(Seq<char>, Seq<char>)>) -> PackageV {
    PackageV {
        package: str_field(fs, "Package"@),
        architecture: str_field(fs, "Architecture"@),
        version: str_field(fs, "Version"@),
        section: str_field(fs, "Section"@),
        install_size: num_field(fs, "Installed-Size"@),
        maintainer: str_field(fs, "Maintainer"@),
        filename: str_field(fs, "Filename"@),
        size: num_field(fs, "Size"@),
        sha256: str_field(fs, "SHA256"@),
        description: str_field(fs, "Description"@),
        depends: first_val(fs, "Depends"@),
        provides: first_val(fs, "Provides"@),
        conflicts: first_val(fs, "Conflicts"@),
        replaces: first_val(fs, "Replaces"@),
        breaks: first_val(fs, "Breaks"@),
        featres: first_val(fs, "X-AOSC-Features"@),
    }
}

/// The records denoted by a sequence of paragraphs.
pub open spec fn spec_records_of(ps: Seq<Seq<(Seq<char>, Seq<char>)>>) -> Seq<PackageV> {
    ps.map_values(|fs: Seq<(Seq<char>, Seq<char>)>| spec_record_of(fs))
}

/// The records of a whole document, in paragraph order.
pub open spec fn spec_parse_packages(s: Seq<char>) -> Option<Seq<PackageV>> {
    match spec_parse_control(s) {
        Some(ps) => Some(spec_records_of(ps)),
        None => None,
    }
}

proof fn lemma_records_view_push(ps: Seq<Package>, p: Package)
    ensures
        records_view(ps.push(p)) =~= records_view(ps).push(p@),
{
}

proof fn lemma_spec_records_push(ps: Seq<Seq<(Seq<char>, Seq<char>)>>, fs: Seq<(Seq<char>, Seq<char>)>)
    ensures
        spec_records_of(ps.push(fs)) =~= spec_records_of(ps).push(spec_record_of(fs)),
{
}

/// Finds the first field named `key` in a paragraph and returns its value.
fn find_field(fields: &Vec<Field>, key: &str) -> (r: Option<String>)
    ensures
        r.deep_view() == first_val(fields_view(fields@), key@),
{
    let k = String::from_str(key);
    let n = fields.len();
    let ghost fv = fields_view(fields@);
    let mut i: usize = 0;
    proof {
        assert(fv.subrange(0, fv.len() as int) =~= fv);
    }
    while i < n
        invariant
            0 <= i <= n,
            n == fields.len(),
            fv == fields_view(fields@),
            n == fv.len(),
            k@ == key@,
            first_val(fv, key@) == first_val(fv.subrange(i as int, n as int), key@),
        decreases n - i,
    {
        let ghost tail = fv.subrange(i as int, n as int);
        proof {
            assert(tail.first() == fv[i as int]);
            assert(fv[i as int] == (fields@[i as int].name@, fields@[i as int].value@));
        }
        if fields[i].name == k {
            let v = fields[i].value.clone();
            return Some(v);
        }
        proof {
            assert(tail.drop_first() =~= fv.subrange(i + 1, n as int));
        }
        i += 1;
    }
    proof {
        assert(fv.subrange(n as int, n as int).len() == 0);
    }
    None
}

/// A required string field of a paragraph, empty when absent.
fn get_str(fields: &Vec<Field>, key: &str) -> (r: String)
    ensures
        r@ == str_field(fields_view(fields@), key@),
{
    match find_field(fields, key) {
        Some(v) => v,
        None => String::new(),
    }
}

/// A numeric field of a paragraph, zero when absent or not a number.
fn get_num(fields: &Vec<Field>, key: &str) -> (r: u64)
    ensures
        r == num_field(fields_view(fields@), key@),
{
    match find_field(fields, key) {
        Some(v) => match parse_u64(v.as_str()) {
            Some(n) => n,
            None => 0,
        },
        None => 0,
    }
}

impl Package {
    /// Maps one parsed paragraph into a record, degrading missing or
    /// malformed fields instead of failing.
    pub fn from_fields(fields: &Vec<Field>) -> (p: Package)
        ensures
            p@ == spec_record_of(fields_view(fields@)),
    {
        Package {
            package: get_str(fields, "Package"),
            architecture: get_str(fields, "Architecture"),
            version: get_str(fields, "Version"),
            section: get_str(fields, "Section"),
            install_size: get_num(fields, "Installed-Size"),
            maintainer: get_str(fields, "Maintainer"),
            filename: get_str(fields, "Filename"),
            size: get_num(fields, "Size"),
            sha256: get_str(fields, "SHA256"),
            description: get_str(fields, "Description"),
            depends: find_field(fields, "Depends"),
            provides: find_field(fields, "Provides"),
            conflicts: find_field(fields, "Conflicts"),
            replaces: find_field(fields, "Replaces"),
            breaks: find_field(fields, "Breaks"),
            featres: find_field(fields, "X-AOSC-Features"),
        }
    }

    /// Parses a document that must hold exactly one paragraph into a record.
    pub fn parse_str(s: &str) -> (r: Result<Package, ParseControlError>)
        ensures
            r is Ok <==> (spec_parse_control(s@) is Some && spec_parse_control(
                s@,
            ).unwrap().len() == 1),
            r is Ok ==> r.unwrap()@ == spec_record_of(spec_parse_control(s@).unwrap()[0]),
            r is Err ==> r.unwrap_err() == ParseControlError::ParseError,
    {
        match control::parse_control(s) {
            None => Err(ParseControlError::ParseError),
            Some(paras) => {
                if paras.len() == 1 {
                    proof {
                        assert(paras_view(paras@)[0] == fields_view(paras@[0]@));
                    }
                    Ok(Package::from_fields(&paras[0]))
                } else {
                    Err(ParseControlError::ParseError)
                }
            },
        }
    }

    /// Parses bytes that must hold exactly one paragraph of UTF-8 text.
    pub fn parse_bytes(input: &[u8]) -> (r: Result<Package, ParseControlError>)
        ensures
            r is Ok <==> (valid_utf8(input@) && spec_parse_control(decode_utf8(input@)) is Some
                && spec_parse_control(decode_utf8(input@)).unwrap().len() == 1),
            r is Ok ==> r.unwrap()@ == spec_record_of(
                spec_parse_control(decode_utf8(input@)).unwrap()[0],
            ),
            !valid_utf8(input@) ==> r == Err::<Package, ParseControlError>(
                ParseControlError::Utf8,
            ),
            valid_utf8(input@) && !(spec_parse_control(decode_utf8(input@)) is Some
                && spec_parse_control(decode_utf8(input@)).unwrap().len() == 1) ==> r == Err::<
                Package,
                ParseControlError,
            >(ParseControlError::ParseError),
    {
        match utf8_from_bytes(input) {
            None => Err(ParseControlError::Utf8),
            Some(s) => Package::parse_str(s),
        }
    }
}

impl Packages {
    /// Parses a whole document into its records, in paragraph order.
    pub fn parse_str(s: &str) -> (r: Result<Packages, ParseControlError>)
        ensures
            r is Ok <==> spec_parse_control(s@) is Some,
            r is Ok ==> Some(r.unwrap()@) == spec_parse_packages(s@),
            r is Err ==> r.unwrap_err() == ParseControlError::ParseError,
    {
        match control::parse_control(s) {
            None => Err(ParseControlError::ParseError),
            Some(paras) => {
                let ghost pv = paras_view(paras@);
                let n = paras.len();
                let mut out: Vec<Package> = Vec::new();
                let mut i: usize = 0;
                proof {
                    assert(records_view(out@) =~= spec_records_of(pv.subrange(0, 0)));
                }
                while i < n
                    invariant
                        0 <= i <= n,
                        n == paras.len(),
                        pv == paras_view(paras@),
                        n == pv.len(),
                        records_view(out@) == spec_records_of(pv.subrange(0, i as int)),
                    decreases n - i,
                {
                    let ghost prow = fields_view(paras@[i as int]@);
                    let p = Package::from_fields(&paras[i]);
                    let ghost oldout = out@;
                    out.push(p);
                    proof {
                        assert(pv[i as int] == prow);
                        assert(p@ == spec_record_of(pv[i as int]));
                        assert(out@ == oldout.push(p));
                        lemma_records_view_push(oldout, p);
                        assert(pv.subrange(0, i + 1) =~= pv.subrange(0, i as int).push(
                            pv[i as int],
                        ));
                        lemma_spec_records_push(pv.subrange(0, i as int), pv[i as int]);
                        assert(records_view(out@) == spec_records_of(pv.subrange(0, i + 1)));
                    }
                    i += 1;
                }
                proof {
                    assert(pv.subrange(0, n as int) =~= pv);
                }
                Ok(Packages(out))
            },
        }
    }

    /// Parses bytes: invalid UTF-8 is an encoding error, before any
    /// paragraph splitting.
    pub fn parse_bytes(input: &[u8]) -> (r: Result<Packages, ParseControlError>)
        ensures
            r is Ok <==> (valid_utf8(input@) && spec_parse_control(decode_utf8(input@)) is Some),
            r is Ok ==> Some(r.unwrap()@) == spec_parse_packages(decode_utf8(input@)),
            !valid_utf8(input@) ==> r == Err::<Packages, ParseControlError>(
                ParseControlError::Utf8,
            ),
            valid_utf8(input@) && spec_parse_control(decode_utf8(input@)) is None ==> r == Err::<
                Packages,
                ParseControlError,
            >(ParseControlError::ParseError),
    {
        match utf8_from_bytes(input) {
            None => Err(ParseControlError::Utf8),
            Some(s) => Packages::parse_str(s),
        }
    }
}

/// An optional field as a (possibly empty) field list.
pub open spec fn opt_field(k: Seq<char>, o: Option<Seq<char>>) -> Seq<(Seq<char>, Seq<char>)> {
    match o {
        Some(v) => seq![(k, v)],
        None => Seq::<(Seq<char>, Seq<char>)>::empty(),
    }
}

/// The ten fields every serialized record carries.
pub open spec fn req_fields_of(p: PackageV) -> Seq<(Seq<char>, Seq<char>)> {
    seq![
        ("Package"@, p.package),
        ("Architecture"@, p.architecture),
        ("Version"@, p.version),
        ("Section"@, p.section),
        ("Installed-Size"@, u64_dec(p.install_size as nat)),
        ("Maintainer"@, p.maintainer),
        ("Filename"@, p.filename),
        ("Size"@, u64_dec(p.size as nat)),
        ("SHA256"@, p.sha256),
        ("Description"@, p.description),
    ]
}

/// The serialized fields of a record: the ten required ones, then each
/// optional field that is present, in a fixed order.
pub open spec fn fields_of_package(p: PackageV) -> Seq<(Seq<char>, Seq<char>)> {
    req_fields_of(p) + opt_field("Depends"@, p.depends) + opt_field("Provides"@, p.provides)
        + opt_field("Conflicts"@, p.conflicts) + opt_field("Replaces"@, p.replaces) + opt_field(
        "Breaks"@,
        p.breaks,
    ) + opt_field("X-AOSC-Features"@, p.featres)
}

/// The control-file text of one record.
pub open spec fn spec_serialize_package(p: PackageV) -> Seq<char> {
    spec_serialize_fields(fields_of_package(p))
}

impl Package {
    /// Serializes the record back into one control-file paragraph.
    pub fn to_control(&self) -> (r: String)
        ensures
            r@ == spec_serialize_package(self@),
    {
        let mut out = String::new();
        let ghost mut fsg: Seq<(Seq<char>, Seq<char>)> = Seq::<(Seq<char>, Seq<char>)>::empty();
        proof {
            assert(out@ =~= spec_serialize_fields(fsg));
        }
        push_field_line(&mut out, "Package", self.package.as_str());
        proof {
            lemma_serialize_fields_push(fsg, ("Package"@, self.package@));
            fsg = fsg.push(("Package"@, self.package@));
        }
        push_field_line(&mut out, "Architecture", self.architecture.as_str());
        proof {
            lemma_serialize_fields_push(fsg, ("Architecture"@, self.architecture@));
            fsg = fsg.push(("Architecture"@, self.architecture@));
        }
        push_field_line(&mut out, "Version", self.version.as_str());
        proof {
            lemma_serialize_fields_push(fsg, ("Version"@, self.version@));
            fsg = fsg.push(("Version"@, self.version@));
        }
        push_field_line(&mut out, "Section", self.section.as_str());
        proof {
            lemma_serialize_fields_push(fsg, ("Section"@, self.section@));
            fsg = fsg.push(("Section"@, self.section@));
        }
        let ins = format_u64(self.install_size);
        push_field_line(&mut out, "Installed-Size", ins.as_str());
        proof {
            lemma_serialize_fields_push(fsg, ("Installed-Size"@, ins@));
            fsg = fsg.push(("Installed-Size"@, ins@));
        }
        push_field_line(&mut out, "Maintainer", self.maintainer.as_str());
        proof {
            lemma_serialize_fields_push(fsg, ("Maintainer"@, self.maintainer@));
            fsg = fsg.push(("Maintainer"@, self.maintainer@));
        }
        push_field_line(&mut out, "Filename", self.filename.as_str());
        proof {
            lemma_serialize_fields_push(fsg, ("Filename"@, self.filename@));
            fsg = fsg.push(("Filename"@, self.filename@));
        }
        let sz = format_u64(self.size);
        push_field_line(&mut out, "Size", sz.as_str());
        proof {
            lemma_serialize_fields_push(fsg, ("Size"@, sz@));
            fsg = fsg.push(("Size"@, sz@));
        }
        push_field_line(&mut out, "SHA256", self.sha256.as_str());
        proof {
            lemma_serialize_fields_push(fsg, ("SHA256"@, self.sha256@));
            fsg = fsg.push(("SHA256"@, self.sha256@));
        }
        push_field_line(&mut out, "Description", self.description.as_str());
        proof {
            lemma_serialize_fields_push(fsg, ("Description"@, self.description@));
            fsg = fsg.push(("Description"@, self.description@));
            assert(fsg =~= req_fields_of(self@));
        }
        let ghost p1 = req_fields_of(self@) + opt_field("Depends"@, self@.depends);
        match &self.depends {
            Some(d) => {
                push_field_line(&mut out, "Depends", d.as_str());
                proof {
                    lemma_serialize_fields_push(fsg, ("Depends"@, d@));
                    fsg = fsg.push(("Depends"@, d@));
                    assert(fsg =~= p1);
                }
            },
            None => {
                proof {
                    assert(fsg =~= p1);
                }
            },
        }
        let ghost p2 = p1 + opt_field("Provides"@, self@.provides);
        match &self.provides {
            Some(d) => {
                push_field_line(&mut out, "Provides", d.as_str());
                proof {
                    lemma_serialize_fields_push(fsg, ("Provides"@, d@));
                    fsg = fsg.push(("Provides"@, d@));
                    assert(fsg =~= p2);
                }
            },
            None => {
                proof {
                    assert(fsg =~= p2);
                }
            },
        }
        let ghost p3 = p2 + opt_field("Conflicts"@, self@.conflicts);
        match &self.conflicts {
            Some(d) => {
                push_field_line(&mut out, "Conflicts", d.as_str());
                proof {
                    lemma_serialize_fields_push(fsg, ("Conflicts"@, d@));
                    fsg = fsg.push(("Conflicts"@, d@));
                    assert(fsg =~= p3);
                }
            },
            None => {
                proof {
                    assert(fsg =~= p3);
                }
            },
        }
        let ghost p4 = p3 + opt_field("Replaces"@, self@.replaces);
        match &self.replaces {
            Some(d) => {
                push_field_line(&mut out, "Replaces", d.as_str());
                proof {
                    lemma_serialize_fields_push(fsg, ("Replaces"@, d@));
                    fsg = fsg.push(("Replaces"@, d@));
                    assert(fsg =~= p4);
                }
            },
            None => {
                proof {
                    assert(fsg =~= p4);
                }
            },
        }
        let ghost p5 = p4 + opt_field("Breaks"@, self@.breaks);
        match &self.breaks {
            Some(d) => {
                push_field_line(&mut out, "Breaks", d.as_str());
                proof {
                    lemma_serialize_fields_push(fsg, ("Breaks"@, d@));
                    fsg = fsg.push(("Breaks"@, d@));
                    assert(fsg =~= p5);
                }
            },
            None => {
                proof {
                    assert(fsg =~= p5);
                }
            },
        }
        let ghost p6 = p5 + opt_field("X-AOSC-Features"@, self@.featres);
        match &self.featres {
            Some(d) => {
                push_field_line(&mut out, "X-AOSC-Features", d.as_str());
                proof {
                    lemma_serialize_fields_push(fsg, ("X-AOSC-Features"@, d@));
                    fsg = fsg.push(("X-AOSC-Features"@, d@));
                    assert(fsg =~= p6);
                }
            },
            None => {
                proof {
                    assert(fsg =~= p6);
                }
            },
        }
        proof {
            assert(fsg == fields_of_package(self@));
        }
        out
    }
}

/// The control-file text of a whole document: each record's paragraph, with
/// one blank line between consecutive paragraphs.
pub open spec fn spec_serialize_packages(ps: Seq<PackageV>) -> Seq<char>
    decreases ps.len(),
{
    if ps.len() == 0 {
        Seq::<char>::empty()
    } else if ps.len() == 1 {
        spec_serialize_package(ps[0])
    } else {
        spec_serialize_packages(ps.drop_last()) + seq!['\n'] + spec_serialize_package(ps.last())
    }
}

impl Packages {
    /// Serializes the whole collection back into control-file text.
    pub fn to_control(&self) -> (r: String)
        ensures
            r@ == spec_serialize_packages(self@),
    {
        let mut out = String::new();
        let n = self.0.len();
        let mut i: usize = 0;
        proof {
            assert(self@.len() == n);
        }
        while i < n
            invariant
                0 <= i <= n,
                n == self.0.len(),
                self@ == records_view(self.0@),
                self@.len() == n,
                out@ == spec_serialize_packages(self@.subrange(0, i as int)),
            decreases n - i,
        {
            let ghost pre = self@.subrange(0, i as int);
            let ghost post = self@.subrange(0, i + 1);
            proof {
                assert(post.drop_last() =~= pre);
                assert(post.last() == self@[i as int]);
                assert(self@[i as int] == self.0@[i as int]@);
            }
            if i > 0 {
                out.append("\n");
            }
            let para = (&self.0[i]).to_control();
            out.append(para.as_str());
            proof {
                reveal_strlit("\n");
                if i == 0 {
                    assert(out@ =~= spec_serialize_package(post[0]));
                } else {
                    assert(out@ =~= spec_serialize_packages(pre) + seq!['\n']
                        + spec_serialize_package(post.last()));
                }
            }
            i += 1;
        }
        proof {
            assert(self@.subrange(0, n as int) =~= self@);
        }
        out
    }
}

impl core::str::FromStr for Packages {
    type Err = ParseControlError;

    fn from_str(s: &str) -> Result<Packages, ParseControlError> {
        Packages::parse_str(s)
    }
}

impl core::str::FromStr for Package {
    type Err = ParseControlError;

    fn from_str(s: &str) -> Result<Package, ParseControlError> {
        Package::parse_str(s)
    }
}

impl<'a> TryFrom<&'a [u8]> for Packages {
    type Error = ParseControlError;

    fn try_from(input: &'a [u8]) -> Result<Packages, ParseControlError> {
        Packages::parse_bytes(input)
    }
}

impl<'a> vstd::std_specs::convert::TryFromSpecImpl<&'a [u8]> for Packages {
    open spec fn obeys_try_from_spec() -> bool {
        false
    }

    open spec fn try_from_spec(v: &'a [u8]) -> Result<Packages, ParseControlError> {
        arbitrary()
    }
}

impl<'a> TryFrom<&'a [u8]> for Package {
    type Error = ParseControlError;

    fn try_from(input: &'a [u8]) -> Result<Package, ParseControlError> {
        Package::parse_bytes(input)
    }
}

impl<'a> vstd::std_specs::convert::TryFromSpecImpl<&'a [u8]> for Package {
    open spec fn obeys_try_from_spec() -> bool {
        false
    }

    open spec fn try_from_spec(v: &'a [u8]) -> Result<Package, ParseControlError> {
        arbitrary()
    }
}

/// A record with every optional field present and each text field
/// single-line, free of leading whitespace: exactly the records whose
/// serialization is a paragraph with all fields, which parses back unchanged.
pub open spec fn complete_package(p: PackageV) -> bool {
    &&& wf_value(p.package)
    &&& wf_value(p.architecture)
    &&& wf_value(p.version)
    &&& wf_value(p.section)
    &&& wf_value(p.maintainer)
    &&& wf_value(p.filename)
    &&& wf_value(p.sha256)
    &&& wf_value(p.description)
    &&& p.depends is Some && wf_value(p.depends.unwrap())
    &&& p.provides is Some && wf_value(p.provides.unwrap())
    &&& p.conflicts is Some && wf_value(p.conflicts.unwrap())
    &&& p.replaces is Some && wf_value(p.replaces.unwrap())
    &&& p.breaks is Some && wf_value(p.breaks.unwrap())
    &&& p.featres is Some && wf_value(p.featres.unwrap())
}

/// The decimal text of a number is a well-formed field value.
proof fn lemma_u64_dec_wf(n: u64)
    ensures
        wf_value(u64_dec(n as nat)),
        u64_dec(n as nat).len() > 0,
{
    lemma_u64_dec_parses(n);
    let d = u64_dec(n as nat);
    assert(d.len() > 0);
    assert(forall|i: int| 0 <= i < d.len() ==> is_digit(#[trigger] d[i]));
    assert forall|i: int| 0 <= i < d.len() implies #[trigger] d[i] != '\n' by {
        assert(is_digit(d[i]));
    }
    assert(!crate::is_ws(d[0])) by {
        assert(is_digit(d[0]));
    }
}

proof fn lemma_complete_fields(p: PackageV)
    requires
        complete_package(p),
    ensures
        fields_of_package(p) =~= seq![
            ("Package"@, p.package),
            ("Architecture"@, p.architecture),
            ("Version"@, p.version),
            ("Section"@, p.section),
            ("Installed-Size"@, u64_dec(p.install_size as nat)),
            ("Maintainer"@, p.maintainer),
            ("Filename"@, p.filename),
            ("Size"@, u64_dec(p.size as nat)),
            ("SHA256"@, p.sha256),
            ("Description"@, p.description),
            ("Depends"@, p.depends.unwrap()),
            ("Provides"@, p.provides.unwrap()),
            ("Conflicts"@, p.conflicts.unwrap()),
            ("Replaces"@, p.replaces.unwrap()),
            ("Breaks"@, p.breaks.unwrap()),
            ("X-AOSC-Features"@, p.featres.unwrap()),
        ],
        wf_fields(fields_of_package(p)),
        fields_of_package(p).len() == 16,
{
    reveal_strlit("Package");
    reveal_strlit("Architecture");
    reveal_strlit("Version");
    reveal_strlit("Section");
    reveal_strlit("Installed-Size");
    reveal_strlit("Maintainer");
    reveal_strlit("Filename");
    reveal_strlit("Size");
    reveal_strlit("SHA256");
    reveal_strlit("Description");
    reveal_strlit("Depends");
    reveal_strlit("Provides");
    reveal_strlit("Conflicts");
    reveal_strlit("Replaces");
    reveal_strlit("Breaks");
    reveal_strlit("X-AOSC-Features");
    lemma_u64_dec_wf(p.install_size);
    lemma_u64_dec_wf(p.size);
    let fs = fields_of_package(p);
    assert(wf_key("Package"@));
    assert(wf_key("Architecture"@));
    assert(wf_key("Version"@));
    assert(wf_key("Section"@));
    assert(wf_key("Installed-Size"@));
    assert(wf_key("Maintainer"@));
    assert(wf_key("Filename"@));
    assert(wf_key("Size"@));
    assert(wf_key("SHA256"@));
    assert(wf_key("Description"@));
    assert(wf_key("Depends"@));
    assert(wf_key("Provides"@));
    assert(wf_key("Conflicts"@));
    assert(wf_key("Replaces"@));
    assert(wf_key("Breaks"@));
    assert(wf_key("X-AOSC-Features"@));
    assert forall|i: int| 0 <= i < fs.len() implies wf_key(#[trigger] fs[i].0) && wf_value(
        fs[i].1,
    ) by {
    }
}

/// A complete record's own paragraph maps back to the record itself.
proof fn lemma_record_of_complete(p: PackageV)
    requires
        complete_package(p),
    ensures
        spec_record_of(fields_of_package(p)) == p,
{
    lemma_complete_fields(p);
    let fs = fields_of_package(p);
    reveal_strlit("Package");
    reveal_strlit("Architecture");
    reveal_strlit("Version");
    reveal_strlit("Section");
    reveal_strlit("Installed-Size");
    reveal_strlit("Maintainer");
    reveal_strlit("Filename");
    reveal_strlit("Size");
    reveal_strlit("SHA256");
    reveal_strlit("Description");
    reveal_strlit("Depends");
    reveal_strlit("Provides");
    reveal_strlit("Conflicts");
    reveal_strlit("Replaces");
    reveal_strlit("Breaks");
    reveal_strlit("X-AOSC-Features");
    reveal_with_fuel(first_val, 18);
    assert(first_val(fs, "Package"@) == Some(p.package));
    assert(first_val(fs, "Architecture"@) == Some(p.architecture));
    assert(first_val(fs, "Version"@) == Some(p.version));
    assert(first_val(fs, "Section"@) == Some(p.section));
    assert(first_val(fs, "Installed-Size"@) == Some(u64_dec(p.install_size as nat)));
    assert(first_val(fs, "Maintainer"@) == Some(p.maintainer));
    assert(first_val(fs, "Filename"@) == Some(p.filename));
    assert(first_val(fs, "Size"@) == Some(u64_dec(p.size as nat)));
    assert(first_val(fs, "SHA256"@) == Some(p.sha256));
    assert(first_val(fs, "Description"@) == Some(p.description));
    assert(first_val(fs, "Depends"@) == Some(p.depends.unwrap()));
    assert(first_val(fs, "Provides"@) == Some(p.provides.unwrap()));
    assert(first_val(fs, "Conflicts"@) == Some(p.conflicts.unwrap()));
    assert(first_val(fs, "Replaces"@) == Some(p.replaces.unwrap()));
    assert(first_val(fs, "Breaks"@) == Some(p.breaks.unwrap()));
    assert(first_val(fs, "X-AOSC-Features"@) == Some(p.featres.unwrap()));
    lemma_u64_dec_parses(p.install_size);
    lemma_u64_dec_parses(p.size);
}

/// Round trip: serializing a complete record and parsing the text back gives
/// exactly that record, as the one record of the document.
pub proof fn lemma_package_round_trip(p: PackageV)
    requires
        complete_package(p),
    ensures
        spec_parse_packages(spec_serialize_package(p)) == Some(seq![p]),
{
    lemma_complete_fields(p);
    let fs = fields_of_package(p);
    lemma_fields_round_trip(fs);
    lemma_record_of_complete(p);
    assert(spec_records_of(seq![fs]) =~= seq![p]);
}

/// The field lists of a sequence of records.
pub open spec fn packages_fields(ps: Seq<PackageV>) -> Seq<Seq<(Seq<char>, Seq<char>)>> {
    ps.map_values(|p: PackageV| fields_of_package(p))
}

/// The collection serializer writes exactly the paragraph serialization of
/// each record's fields, blank-line separated.
proof fn lemma_serialize_packages_paras(ps: Seq<PackageV>)
    ensures
        spec_serialize_packages(ps) == control::spec_serialize_paras(packages_fields(ps)),
    decreases ps.len(),
{
    let m = packages_fields(ps);
    if ps.len() == 0 {
        assert(m.len() == 0);
    } else if ps.len() == 1 {
        assert(m.len() == 1);
        assert(m[0] == fields_of_package(ps[0]));
    } else {
        lemma_serialize_packages_paras(ps.drop_last());
        assert(m.drop_last() =~= packages_fields(ps.drop_last()));
        assert(m.last() == fields_of_package(ps.last()));
    }
}

/// Round trip for whole collections: serializing any sequence of complete
/// records and parsing the text back gives exactly those records, in order.
pub proof fn lemma_packages_round_trip(ps: Seq<PackageV>)
    requires
        forall|i: int| 0 <= i < ps.len() ==> complete_package(#[trigger] ps[i]),
    ensures
        spec_parse_packages(spec_serialize_packages(ps)) == Some(ps),
{
    lemma_serialize_packages_paras(ps);
    let pss = packages_fields(ps);
    assert(control::wf_paras(pss)) by {
        assert forall|i: int| 0 <= i < pss.len() implies (#[trigger] pss[i]).len() > 0
            && wf_fields(pss[i]) by {
            lemma_complete_fields(ps[i]);
            assert(pss[i] == fields_of_package(ps[i]));
        }
    }
    control::lemma_paras_round_trip(pss);
    assert(spec_records_of(pss) =~= ps) by {
        assert forall|i: int| 0 <= i < ps.len() implies spec_records_of(pss)[i] == ps[i] by {
            assert(pss[i] == fields_of_package(ps[i]));
            lemma_record_of_complete(ps[i]);
        }
    }
}

/// A document of whitespace and newlines alone (empty input included) yields
/// an empty collection, not an error.
pub proof fn lemma_blank_document_no_records(s: Seq<char>)
    requires
        forall|i: int| 0 <= i < s.len() ==> crate::is_ws(#[trigger] s[i]) || s[i] == '\n',
    ensures
        spec_parse_packages(s) == Some(Seq::<PackageV>::empty()),
{
    control::lemma_blank_document(s);
    assert(spec_records_of(Seq::<Seq<(Seq<char>, Seq<char>)>>::empty()) =~= Seq::<
        PackageV,
    >::empty());
}

/// A paragraph without an optional field yields a record without it; the
/// field mapping itself never fails a paragraph.
pub proof fn lemma_missing_optional(fs: Seq<(Seq<char>, Seq<char>)>)
    ensures
        first_val(fs, "Depends"@) is None ==> spec_record_of(fs).depends is None,
        first_val(fs, "Provides"@) is None ==> spec_record_of(fs).provides is None,
        first_val(fs, "Conflicts"@) is None ==> spec_record_of(fs).conflicts is None,
        first_val(fs, "Replaces"@) is None ==> spec_record_of(fs).replaces is None,
        first_val(fs, "Breaks"@) is None ==> spec_record_of(fs).breaks is None,
        first_val(fs, "X-AOSC-Features"@) is None ==> spec_record_of(fs).featres is None,
{
}

/// A `Size` or `Installed-Size` field that is absent or not a decimal number
/// degrades to zero; the rest of the record is unaffected.
pub proof fn lemma_non_numeric_size(fs: Seq<(Seq<char>, Seq<char>)>)
    ensures
        (match first_val(fs, "Size"@) {
            Some(v) => spec_parse_u64(v) is None,
            None => true,
        }) ==> spec_record_of(fs).size == 0,
        (match first_val(fs, "Installed-Size"@) {
            Some(v) => spec_parse_u64(v) is None,
            None => true,
        }) ==> spec_record_of(fs).install_size == 0,
{
}

/// Relies on std's `str::from_utf8`: it succeeds exactly on valid UTF-8
/// input, and the resulting string is the decoding of the bytes.
#[verifier::external_body]
fn utf8_from_bytes<'a>(input: &'a [u8]) -> (r: Option<&'a str>)
    ensures
        r is Some <==> valid_utf8(input@),
        r is Some ==> r.unwrap()@ == decode_utf8(input@),
{
    core::str::from_utf8(input).ok()
}

} // verus!
