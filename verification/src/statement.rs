//! The declarative side of a policy: identifiers, resource names,
//! configuration values, and statements.

use vstd::prelude::*;

use crate::encoding::{
    bytes_eq, dec_chars, dec_chars_signed, hex_chars, parse_i64, parse_u64, u64_be_bytes,
    u64_to_be_vec, u64_to_dec_string,
};
use crate::model::{ActionListModel, ConfigModel, KeyModel, StatementModel};

verus! {

broadcast use vstd::std_specs::vec::group_vec_axioms;

use vstd::string::StringSliceAdditionalSpecFns;
use vstd::utf8::encode_utf8;

/// A single element of a resource name: the wildcard, an integer, a string,
/// or a byte string.
#[derive(Debug)]
pub enum Identifier {
    /// Matches any identifier when permissions are checked.
    Any,
    /// An integer identifier.
    Integer(u64),
    /// A string identifier.
    String(String),
    /// A binary identifier.
    Bytes(Vec<u8>),
}

/// The abstract value of an [`Identifier`], variant for variant.
pub ghost enum IdentifierModel {
    Any,
    Integer(u64),
    Text(Seq<char>),
    Bytes(Seq<u8>),
}

impl IdentifierModel {
    /// Renders this identifier as text: `*` for the wildcard, decimal digits
    /// for an integer, the text itself for a string, and `$` followed by
    /// lowercase hexadecimal digits for a byte string.
    pub open spec fn spec_to_string(self) -> Seq<char> {
        match self {
            IdentifierModel::Any => seq!['*'],
            IdentifierModel::Integer(x) => dec_chars(x as int),
            IdentifierModel::Text(t) => t,
            IdentifierModel::Bytes(b) => seq!['$'] + hex_chars(b),
        }
    }

    /// The semantic key of this identifier: the wildcard, or the canonical
    /// byte encoding of the value — big-endian bytes for an integer, UTF-8
    /// bytes for a string, the bytes themselves for a byte string. Two
    /// identifiers with the same key are interchangeable in a policy.
    pub open spec fn key(self) -> KeyModel {
        match self {
            IdentifierModel::Any => KeyModel::Wildcard,
            IdentifierModel::Integer(x) => KeyModel::Concrete(u64_be_bytes(x)),
            IdentifierModel::Text(t) => KeyModel::Concrete(encode_utf8(t)),
            IdentifierModel::Bytes(b) => KeyModel::Concrete(b),
        }
    }
}

impl View for Identifier {
    type V = IdentifierModel;

    open spec fn view(&self) -> IdentifierModel {
        match self {
            Identifier::Any => IdentifierModel::Any,
            Identifier::Integer(x) => IdentifierModel::Integer(*x),
            Identifier::String(s) => IdentifierModel::Text(s@),
            Identifier::Bytes(b) => IdentifierModel::Bytes(b@),
        }
    }
}

impl Identifier {
    /// The semantic key of this identifier.
    pub open spec fn key(self) -> KeyModel {
        self@.key()
    }

    /// Returns an identifier with the same value as this one.
    pub fn to_owned(&self) -> (r: Identifier)
        ensures
            r@ == self@,
    {
        match self {
            Identifier::Any => Identifier::Any,
            Identifier::Integer(x) => Identifier::Integer(*x),
            Identifier::String(s) => Identifier::String(s.clone()),
            Identifier::Bytes(b) => Identifier::Bytes(b.clone()),
        }
    }

    /// The canonical bytes this identifier hashes as: a single zero byte for
    /// the wildcard, the key bytes otherwise. Matches key equality: two
    /// identifiers hash alike exactly when they compare alike.
    pub open spec fn spec_hash_bytes(self) -> Seq<u8> {
        match self.key() {
            KeyModel::Wildcard => seq![0u8],
            KeyModel::Concrete(bytes) => bytes,
        }
    }

    /// The canonical bytes this identifier hashes as.
    pub fn hash_bytes(&self) -> (r: Vec<u8>)
        ensures
            r@ == self.spec_hash_bytes(),
    {
        match self {
            Identifier::Any => {
                let mut v: Vec<u8> = Vec::new();
                v.push(0u8);
                assert(v@ =~= seq![0u8]);
                v
            },
            Identifier::Integer(x) => u64_to_be_vec(*x),
            Identifier::String(s) => s.as_str().as_bytes_vec(),
            Identifier::Bytes(b) => b.clone(),
        }
    }

    /// Whether this identifier has the same key as `other`.
    pub fn key_eq(&self, other: &Identifier) -> (r: bool)
        ensures
            r == (self.key() == other.key()),
    {
        match (self, other) {
            (Identifier::Any, Identifier::Any) => true,
            (Identifier::Any, _) => false,
            (_, Identifier::Any) => false,
            (Identifier::Integer(x), Identifier::Integer(y)) => {
                proof {
                    if u64_be_bytes(*x) == u64_be_bytes(*y) {
                        crate::encoding::lemma_u64_be_bytes_injective(*x, *y);
                    }
                }
                x == y
            },
            (Identifier::Integer(x), Identifier::String(s)) => bytes_eq(
                u64_to_be_vec(*x).as_slice(),
                s.as_str().as_bytes(),
            ),
            (Identifier::Integer(x), Identifier::Bytes(b)) => bytes_eq(
                u64_to_be_vec(*x).as_slice(),
                b.as_slice(),
            ),
            (Identifier::String(s), Identifier::Integer(y)) => bytes_eq(
                s.as_str().as_bytes(),
                u64_to_be_vec(*y).as_slice(),
            ),
            (Identifier::String(s), Identifier::String(t)) => bytes_eq(
                s.as_str().as_bytes(),
                t.as_str().as_bytes(),
            ),
            (Identifier::String(s), Identifier::Bytes(b)) => bytes_eq(
                s.as_str().as_bytes(),
                b.as_slice(),
            ),
            (Identifier::Bytes(b), Identifier::Integer(y)) => bytes_eq(
                b.as_slice(),
                u64_to_be_vec(*y).as_slice(),
            ),
            (Identifier::Bytes(b), Identifier::String(t)) => bytes_eq(
                b.as_slice(),
                t.as_str().as_bytes(),
            ),
            (Identifier::Bytes(b), Identifier::Bytes(c)) => bytes_eq(b.as_slice(), c.as_slice()),
        }
    }

    /// Whether this identifier is the wildcard.
    pub fn is_any(&self) -> (r: bool)
        ensures
            r == (self.key() is Wildcard),
    {
        match self {
            Identifier::Any => true,
            _ => false,
        }
    }

    /// Renders this identifier as text.
    pub fn to_string(&self) -> (r: String)
        ensures
            r@ == self@.spec_to_string(),
    {
        proof {
            reveal_strlit("*");
            reveal_strlit("$");
        }
        match self {
            Identifier::Any => {
                let mut out = String::new();
                out.append("*");
                assert(out@ =~= self@.spec_to_string());
                out
            },
            Identifier::Integer(x) => u64_to_dec_string(*x),
            Identifier::String(s) => s.clone(),
            Identifier::Bytes(b) => {
                let mut out = String::new();
                out.append("$");
                crate::encoding::push_hex(&mut out, b.as_slice());
                assert(out@ =~= self@.spec_to_string());
                out
            },
        }
    }
}

impl PartialEq for Identifier {
    /// Two identifiers are equal when their canonical keys are: an integer, a
    /// string, and a byte string compare equal whenever their byte encodings
    /// match, and the wildcard equals only itself.
    fn eq(&self, other: &Identifier) -> (r: bool) {
        self.key_eq(other)
    }
}

impl vstd::std_specs::cmp::PartialEqSpecImpl for Identifier {
    open spec fn obeys_eq_spec() -> bool {
        true
    }

    open spec fn eq_spec(&self, other: &Identifier) -> bool {
        self.key() == other.key()
    }
}

impl Clone for Identifier {
    /// Clones the identifier, keeping its value.
    fn clone(&self) -> (r: Identifier)
        ensures
            r@ == self@,
    {
        self.to_owned()
    }
}

impl vstd::std_specs::convert::FromSpecImpl<u64> for Identifier {
    open spec fn obeys_from_spec() -> bool {
        true
    }

    open spec fn from_spec(id: u64) -> Identifier {
        Identifier::Integer(id)
    }
}

impl From<u64> for Identifier {
    /// An integer identifier.
    fn from(id: u64) -> (r: Identifier) {
        Identifier::Integer(id)
    }
}

impl vstd::std_specs::convert::FromSpecImpl<String> for Identifier {
    open spec fn obeys_from_spec() -> bool {
        true
    }

    open spec fn from_spec(id: String) -> Identifier {
        Identifier::String(id)
    }
}

impl From<String> for Identifier {
    /// A string identifier.
    fn from(id: String) -> (r: Identifier) {
        Identifier::String(id)
    }
}

// Conversions that copy borrowed data return a freshly allocated value,
// which no spec-level expression denotes exactly; those impls leave the
// `From` contract open and describe the result's abstract value only.
impl<'a> vstd::std_specs::convert::FromSpecImpl<&'a str> for Identifier {
    open spec fn obeys_from_spec() -> bool {
        false
    }

    open spec fn from_spec(id: &'a str) -> Identifier {
        choose|r: Identifier| r@ == IdentifierModel::Text(id@)
    }
}

impl<'a> From<&'a str> for Identifier {
    /// A string identifier, copied from the borrowed text.
    fn from(id: &'a str) -> (r: Identifier) {
        Identifier::String(String::from_str(id))
    }
}

impl<'a> vstd::std_specs::convert::FromSpecImpl<&'a String> for Identifier {
    open spec fn obeys_from_spec() -> bool {
        true
    }

    open spec fn from_spec(id: &'a String) -> Identifier {
        Identifier::String(*id)
    }
}

impl<'a> From<&'a String> for Identifier {
    /// A string identifier, copied from the borrowed text.
    fn from(id: &'a String) -> (r: Identifier) {
        Identifier::String(id.clone())
    }
}

impl vstd::std_specs::convert::FromSpecImpl<Vec<u8>> for Identifier {
    open spec fn obeys_from_spec() -> bool {
        true
    }

    open spec fn from_spec(id: Vec<u8>) -> Identifier {
        Identifier::Bytes(id)
    }
}

impl From<Vec<u8>> for Identifier {
    /// A binary identifier.
    fn from(id: Vec<u8>) -> (r: Identifier) {
        Identifier::Bytes(id)
    }
}

impl<'a> vstd::std_specs::convert::FromSpecImpl<&'a Vec<u8>> for Identifier {
    open spec fn obeys_from_spec() -> bool {
        false
    }

    open spec fn from_spec(id: &'a Vec<u8>) -> Identifier {
        choose|r: Identifier| r@ == IdentifierModel::Bytes(id@)
    }
}

impl<'a> From<&'a Vec<u8>> for Identifier {
    /// A binary identifier, copied from the borrowed bytes.
    fn from(id: &'a Vec<u8>) -> (r: Identifier) {
        Identifier::Bytes(id.clone())
    }
}

impl<'a> vstd::std_specs::convert::FromSpecImpl<&'a [u8]> for Identifier {
    open spec fn obeys_from_spec() -> bool {
        false
    }

    open spec fn from_spec(id: &'a [u8]) -> Identifier {
        choose|r: Identifier| r@ == IdentifierModel::Bytes(id@)
    }
}

impl<'a> From<&'a [u8]> for Identifier {
    /// A binary identifier, copied from the borrowed bytes.
    fn from(id: &'a [u8]) -> (r: Identifier) {
        Identifier::Bytes(vstd::slice::slice_to_vec(id))
    }
}

impl<'a, const N: usize> vstd::std_specs::convert::FromSpecImpl<&'a [u8; N]> for Identifier {
    open spec fn obeys_from_spec() -> bool {
        false
    }

    open spec fn from_spec(id: &'a [u8; N]) -> Identifier {
        choose|r: Identifier| r@ == IdentifierModel::Bytes(id@)
    }
}

impl<'a, const N: usize> From<&'a [u8; N]> for Identifier {
    /// A binary identifier, copied from the borrowed bytes.
    fn from(id: &'a [u8; N]) -> (r: Identifier) {
        Identifier::Bytes(vstd::slice::slice_to_vec(id.as_slice()))
    }
}

impl<const N: usize> vstd::std_specs::convert::FromSpecImpl<[u8; N]> for Identifier {
    open spec fn obeys_from_spec() -> bool {
        false
    }

    open spec fn from_spec(id: [u8; N]) -> Identifier {
        choose|r: Identifier| r@ == IdentifierModel::Bytes(id@)
    }
}

impl<const N: usize> From<[u8; N]> for Identifier {
    /// A binary identifier holding the bytes of the array.
    fn from(id: [u8; N]) -> (r: Identifier) {
        Identifier::Bytes(vstd::slice::slice_to_vec(id.as_slice()))
    }
}

impl DeepView for Identifier {
    type V = IdentifierModel;

    open spec fn deep_view(&self) -> IdentifierModel {
        self@
    }
}

/// A unique name of a resource: an ordered path of identifiers, such as
/// `users.42`. The empty path names the root of the protected domain.
#[derive(Debug)]
pub struct ResourceName(pub Vec<Identifier>);

impl View for ResourceName {
    type V = Seq<IdentifierModel>;

    open spec fn view(&self) -> Seq<IdentifierModel> {
        self.0.deep_view()
    }
}

impl DeepView for ResourceName {
    type V = Seq<IdentifierModel>;

    open spec fn deep_view(&self) -> Seq<IdentifierModel> {
        self@
    }
}

/// The semantic keys of a sequence of identifiers, in order.
pub open spec fn keys_of(ids: Seq<IdentifierModel>) -> Seq<KeyModel> {
    Seq::new(ids.len(), |i: int| ids[i].key())
}

impl ResourceName {
    /// The semantic keys of this name's segments.
    pub open spec fn keys(self) -> Seq<KeyModel> {
        keys_of(self@)
    }

    /// The name made of the single wildcard segment, matching any one
    /// identifier.
    pub fn any() -> (result: ResourceName)
        ensures
            result@ == seq![IdentifierModel::Any],
    {
        let mut v: Vec<Identifier> = Vec::new();
        v.push(Identifier::Any);
        let result = ResourceName(v);
        assert(result@ =~= seq![IdentifierModel::Any]);
        result
    }

    /// The name made of the single segment `name`.
    pub fn named<I: Into<Identifier>>(name: I) -> (result: ResourceName)
        ensures
            exists|id: Identifier|
                #[trigger] call_ensures(I::into, (name,), id) && result@ == seq![id@],
    {
        let id = name.into();
        let ghost idg = id;
        let mut v: Vec<Identifier> = Vec::new();
        v.push(id);
        let result = ResourceName(v);
        assert(result@ =~= seq![idg@]);
        result
    }

    /// This name with the segment `name` appended.
    pub fn and<I: Into<Identifier>>(self, name: I) -> (result: ResourceName)
        ensures
            exists|id: Identifier|
                #[trigger] call_ensures(I::into, (name,), id) && result@ == self@.push(id@),
    {
        let id = name.into();
        let ghost idg = id;
        let mut v = self.0;
        v.push(id);
        let result = ResourceName(v);
        assert(result@ =~= self@.push(idg@));
        result
    }

    /// Returns a name with the same segments as this one.
    pub fn to_owned(&self) -> (r: ResourceName)
        ensures
            r@ == self@,
    {
        let mut v: Vec<Identifier> = Vec::new();
        let mut i: usize = 0;
        while i < self.0.len()
            invariant
                0 <= i <= self.0@.len(),
                v@.len() == i,
                forall|j: int| 0 <= j < i ==> v@[j]@ == self.0@[j]@,
            decreases self.0@.len() - i,
        {
            v.push(self.0[i].to_owned());
            i += 1;
        }
        let r = ResourceName(v);
        assert(r@ =~= self@);
        r
    }

    /// Renders this name as its segments' renderings joined by `'.'`.
    pub fn to_string(&self) -> (r: String)
        ensures
            r@ == crate::action::dotted(Seq::new(self@.len(), |i: int| self@[i].spec_to_string())),
    {
        let ghost parts = Seq::new(self@.len(), |i: int| self@[i].spec_to_string());
        let mut out = String::new();
        let mut i: usize = 0;
        assert(out@ =~= crate::action::dotted(parts.take(0)));
        while i < self.0.len()
            invariant
                0 <= i <= self.0@.len(),
                self@.len() == self.0@.len(),
                parts == Seq::new(self@.len(), |j: int| self@[j].spec_to_string()),
                forall|j: int| 0 <= j < self@.len() ==> self@[j] == self.0@[j]@,
                out@ == crate::action::dotted(parts.take(i as int)),
            decreases self.0@.len() - i,
        {
            if i > 0 {
                out.append(".");
            }
            let segment = self.0[i].to_string();
            out.append(segment.as_str());
            assert(out@ =~= crate::action::dotted(parts.take(i as int + 1))) by {
                reveal_strlit(".");
                assert("."@ =~= seq!['.']);
                let upto = parts.take(i as int + 1);
                assert(upto.drop_last() =~= parts.take(i as int));
                assert(upto.last() == parts[i as int]);
                assert(upto[0] == parts[0]);
            }
            i += 1;
        }
        assert(parts.take(parts.len() as int) =~= parts);
        out
    }
}

impl Clone for ResourceName {
    /// Clones the name, keeping its segments.
    fn clone(&self) -> (r: ResourceName)
        ensures
            r@ == self@,
    {
        self.to_owned()
    }
}

impl Default for ResourceName {
    /// The empty resource name, naming the root.
    fn default() -> (r: ResourceName)
        ensures
            r@ == Seq::<IdentifierModel>::empty(),
    {
        let r = ResourceName(Vec::new());
        assert(r@ =~= Seq::<IdentifierModel>::empty());
        r
    }
}

impl<'a> vstd::std_specs::convert::FromSpecImpl<&'a str> for ResourceName {
    open spec fn obeys_from_spec() -> bool {
        false
    }

    open spec fn from_spec(name: &'a str) -> ResourceName {
        choose|r: ResourceName| r@ == seq![IdentifierModel::Text(name@)]
    }
}

impl<'a> From<&'a str> for ResourceName {
    /// The single-segment name holding the string identifier `name`.
    fn from(name: &'a str) -> (r: ResourceName) {
        let mut v: Vec<Identifier> = Vec::new();
        v.push(Identifier::from(name));
        ResourceName(v)
    }
}

impl vstd::std_specs::convert::FromSpecImpl<u64> for ResourceName {
    open spec fn obeys_from_spec() -> bool {
        false
    }

    open spec fn from_spec(name: u64) -> ResourceName {
        choose|r: ResourceName| r@ == seq![IdentifierModel::Integer(name)]
    }
}

impl From<u64> for ResourceName {
    /// The single-segment name holding the integer identifier `name`.
    fn from(name: u64) -> (r: ResourceName) {
        let mut v: Vec<Identifier> = Vec::new();
        v.push(Identifier::from(name));
        ResourceName(v)
    }
}

/// A configured value for a resource: an unsigned integer, a signed integer,
/// or a string.
#[derive(Debug)]
pub enum Configuration {
    /// An unsigned integer configuration value.
    Unsigned(u64),
    /// A signed integer configuration value.
    Signed(i64),
    /// A string configuration value.
    String(String),
}

impl View for Configuration {
    type V = ConfigModel;

    open spec fn view(&self) -> ConfigModel {
        match self {
            Configuration::Unsigned(u) => ConfigModel::Unsigned(*u),
            Configuration::Signed(s) => ConfigModel::Signed(*s),
            Configuration::String(s) => ConfigModel::Text(s@),
        }
    }
}

impl Configuration {
    /// The value of this configuration read as a signed integer: a string is
    /// parsed as decimal text, and an out-of-range value yields nothing.
    pub open spec fn spec_to_signed(self) -> Option<i64> {
        match self@ {
            ConfigModel::Unsigned(u) => if u <= i64::MAX as u64 {
                Some(u as i64)
            } else {
                None
            },
            ConfigModel::Signed(s) => Some(s),
            ConfigModel::Text(t) => crate::encoding::parse_i64_bytes(encode_utf8(t)),
        }
    }

    /// Evaluates the contents of this configuration as a signed integer.
    /// Returns nothing when the value cannot be converted safely.
    pub fn to_signed(&self) -> (r: Option<i64>)
        ensures
            r == self.spec_to_signed(),
    {
        match self {
            Configuration::Unsigned(u) => if *u <= i64::MAX as u64 {
                Some(*u as i64)
            } else {
                None
            },
            Configuration::Signed(s) => Some(*s),
            Configuration::String(s) => parse_i64(s.as_str()),
        }
    }

    /// The value of this configuration read as an unsigned integer: a string
    /// is parsed as decimal text, and a negative value yields nothing.
    pub open spec fn spec_to_unsigned(self) -> Option<u64> {
        match self@ {
            ConfigModel::Unsigned(u) => Some(u),
            ConfigModel::Signed(s) => if s >= 0 {
                Some(s as u64)
            } else {
                None
            },
            ConfigModel::Text(t) => crate::encoding::parse_u64_bytes(encode_utf8(t)),
        }
    }

    /// Evaluates the contents of this configuration as an unsigned integer.
    /// Returns nothing when the value cannot be converted safely.
    pub fn to_unsigned(&self) -> (r: Option<u64>)
        ensures
            r == self.spec_to_unsigned(),
    {
        match self {
            Configuration::Unsigned(u) => Some(*u),
            Configuration::Signed(s) => if *s >= 0 {
                Some(*s as u64)
            } else {
                None
            },
            Configuration::String(s) => parse_u64(s.as_str()),
        }
    }

    /// Renders this configuration as text: decimal digits for the integer
    /// variants, the text itself for a string.
    pub open spec fn spec_to_string(self) -> Seq<char> {
        match self@ {
            ConfigModel::Unsigned(u) => dec_chars(u as int),
            ConfigModel::Signed(s) => dec_chars_signed(s as int),
            ConfigModel::Text(t) => t,
        }
    }

    /// Renders this configuration as text.
    pub fn to_string(&self) -> (r: String)
        ensures
            r@ == self.spec_to_string(),
    {
        match self {
            Configuration::Unsigned(u) => u64_to_dec_string(*u),
            Configuration::Signed(s) => crate::encoding::i64_to_dec_string(*s),
            Configuration::String(s) => s.clone(),
        }
    }
}

impl Clone for Configuration {
    /// Clones the configuration, keeping its value.
    fn clone(&self) -> (r: Configuration)
        ensures
            r@ == self@,
    {
        match self {
            Configuration::Unsigned(u) => Configuration::Unsigned(*u),
            Configuration::Signed(s) => Configuration::Signed(*s),
            Configuration::String(s) => Configuration::String(s.clone()),
        }
    }
}

impl vstd::std_specs::convert::FromSpecImpl<u64> for Configuration {
    open spec fn obeys_from_spec() -> bool {
        true
    }

    open spec fn from_spec(value: u64) -> Configuration {
        Configuration::Unsigned(value)
    }
}

impl From<u64> for Configuration {
    /// An unsigned integer configuration value.
    fn from(value: u64) -> (r: Configuration) {
        Configuration::Unsigned(value)
    }
}

impl vstd::std_specs::convert::FromSpecImpl<i64> for Configuration {
    open spec fn obeys_from_spec() -> bool {
        true
    }

    open spec fn from_spec(value: i64) -> Configuration {
        Configuration::Signed(value)
    }
}

impl From<i64> for Configuration {
    /// A signed integer configuration value.
    fn from(value: i64) -> (r: Configuration) {
        Configuration::Signed(value)
    }
}

impl vstd::std_specs::convert::FromSpecImpl<String> for Configuration {
    open spec fn obeys_from_spec() -> bool {
        true
    }

    open spec fn from_spec(value: String) -> Configuration {
        Configuration::String(value)
    }
}

impl From<String> for Configuration {
    /// A string configuration value.
    fn from(value: String) -> (r: Configuration) {
        Configuration::String(value)
    }
}

impl<'a> vstd::std_specs::convert::FromSpecImpl<&'a str> for Configuration {
    open spec fn obeys_from_spec() -> bool {
        false
    }

    open spec fn from_spec(value: &'a str) -> Configuration {
        choose|r: Configuration| r@ == ConfigModel::Text(value@)
    }
}

impl<'a> From<&'a str> for Configuration {
    /// A string configuration value, copied from the borrowed text.
    fn from(value: &'a str) -> (r: Configuration) {
        Configuration::String(String::from_str(value))
    }
}

impl DeepView for crate::action::ActionName {
    type V = Seq<Seq<char>>;

    open spec fn deep_view(&self) -> Seq<Seq<char>> {
        self@
    }
}

/// A list of action names: a specific list, or all actions.
#[derive(Debug)]
pub enum ActionNameList {
    /// A specific list of names.
    List(Vec<crate::action::ActionName>),
    /// All actions.
    All,
}

impl View for ActionNameList {
    type V = ActionListModel;

    open spec fn view(&self) -> ActionListModel {
        match self {
            ActionNameList::List(names) => ActionListModel::List(names.deep_view()),
            ActionNameList::All => ActionListModel::All,
        }
    }
}

impl Clone for ActionNameList {
    /// Clones the list, keeping its names.
    fn clone(&self) -> (r: ActionNameList)
        ensures
            r@ == self@,
    {
        match self {
            ActionNameList::All => ActionNameList::All,
            ActionNameList::List(names) => {
                let mut v: Vec<crate::action::ActionName> = Vec::new();
                let mut i: usize = 0;
                while i < names.len()
                    invariant
                        0 <= i <= names@.len(),
                        v@.len() == i,
                        forall|j: int| 0 <= j < i ==> v@[j]@ == names@[j]@,
                    decreases names@.len() - i,
                {
                    v.push(names[i].clone());
                    i += 1;
                }
                let r = ActionNameList::List(v);
                assert(v.deep_view() =~= names.deep_view());
                r
            },
        }
    }
}

impl vstd::std_specs::convert::FromSpecImpl<crate::action::ActionName> for ActionNameList {
    open spec fn obeys_from_spec() -> bool {
        false
    }

    open spec fn from_spec(name: crate::action::ActionName) -> ActionNameList {
        choose|r: ActionNameList| r@ == ActionListModel::List(seq![name@])
    }
}

impl From<crate::action::ActionName> for ActionNameList {
    /// The list holding exactly `name`.
    fn from(name: crate::action::ActionName) -> (r: ActionNameList) {
        let mut v: Vec<crate::action::ActionName> = Vec::new();
        v.push(name);
        ActionNameList::List(v)
    }
}

impl vstd::std_specs::convert::FromSpecImpl<Vec<crate::action::ActionName>> for ActionNameList {
    open spec fn obeys_from_spec() -> bool {
        true
    }

    open spec fn from_spec(names: Vec<crate::action::ActionName>) -> ActionNameList {
        ActionNameList::List(names)
    }
}

impl From<Vec<crate::action::ActionName>> for ActionNameList {
    /// The list holding exactly `names`.
    fn from(names: Vec<crate::action::ActionName>) -> (r: ActionNameList) {
        ActionNameList::List(names)
    }
}

/// The abstract value of a configuration entry list: pairs of key text and
/// configuration value, in order.
pub open spec fn cfg_entries_view(s: Seq<(String, Configuration)>) -> Seq<(Seq<char>, ConfigModel)> {
    Seq::new(s.len(), |i: int| (s[i].0@, s[i].1@))
}

/// Whether some entry of `s` has the key `k`.
pub open spec fn cfg_has_key(s: Seq<(Seq<char>, ConfigModel)>, k: Seq<char>) -> bool {
    exists|j: int| 0 <= j < s.len() && s[j].0 == k
}

/// The position of the first entry of `s` with the key `k`.
pub open spec fn cfg_first_index(s: Seq<(Seq<char>, ConfigModel)>, k: Seq<char>) -> int
    decreases s.len(),
{
    if s.len() == 0 {
        0
    } else if s[0].0 == k {
        0
    } else {
        1 + cfg_first_index(s.skip(1), k)
    }
}

/// The entries after setting `k` to `v`: the first entry with key `k` is
/// replaced, or a new entry is appended when the key is absent.
pub open spec fn cfg_replace(
    s: Seq<(Seq<char>, ConfigModel)>,
    k: Seq<char>,
    v: ConfigModel,
) -> Seq<(Seq<char>, ConfigModel)> {
    if cfg_has_key(s, k) {
        s.update(cfg_first_index(s, k), (k, v))
    } else {
        s.push((k, v))
    }
}

/// When every entry before `at` misses `k` and the entry at `at` has it, `at`
/// is the first index with key `k`.
proof fn lemma_cfg_first_index(s: Seq<(Seq<char>, ConfigModel)>, k: Seq<char>, at: int)
    requires
        0 <= at < s.len(),
        s[at].0 == k,
        forall|j: int| 0 <= j < at ==> s[j].0 != k,
    ensures
        cfg_first_index(s, k) == at,
    decreases at,
{
    if at > 0 {
        assert(forall|j: int| 0 <= j < at - 1 ==> s.skip(1)[j].0 == s[j + 1].0);
        lemma_cfg_first_index(s.skip(1), k, at - 1);
    }
}

/// Sets `key` to `value` in an entry list, replacing the first entry with
/// that key or appending a new one.
fn cfg_set(entries: &mut Vec<(String, Configuration)>, key: String, value: Configuration)
    ensures
        cfg_entries_view(final(entries)@) == cfg_replace(
            cfg_entries_view(old(entries)@),
            key@,
            value@,
        ),
{
    let ghost orig = cfg_entries_view(entries@);
    let mut i: usize = 0;
    while i < entries.len()
        invariant
            0 <= i <= entries@.len(),
            orig == cfg_entries_view(entries@),
            orig == cfg_entries_view(old(entries)@),
            forall|j: int| 0 <= j < i ==> orig[j].0 != key@,
        decreases entries@.len() - i,
    {
        if entries[i].0 == key {
            proof {
                assert(orig[i as int].0 == key@);
                assert(cfg_has_key(orig, key@));
                lemma_cfg_first_index(orig, key@, i as int);
            }
            let slot = &mut entries[i];
            *slot = (key, value);
            assert(cfg_entries_view(entries@) =~= cfg_replace(orig, key@, value@));
            return ;
        }
        i += 1;
    }
    assert(!cfg_has_key(orig, key@));
    entries.push((key, value));
    assert(cfg_entries_view(entries@) =~= cfg_replace(orig, key@, value@));
}

/// The abstract value of a [`Statement`]: its resources segment for segment,
/// its action grant, and its configuration entries.
pub ghost struct StatementV {
    pub resources: Seq<Seq<IdentifierModel>>,
    pub actions: Option<ActionListModel>,
    pub configuration: Option<Seq<(Seq<char>, ConfigModel)>>,
}

impl StatementV {
    /// The key-level model of this statement, as the policy compiler reads
    /// it.
    pub open spec fn to_model(self) -> StatementModel {
        StatementModel {
            resources: Seq::new(self.resources.len(), |i: int| keys_of(self.resources[i])),
            actions: self.actions,
            configuration: self.configuration,
        }
    }

    /// This statement granting `name` as well: the name is appended to the
    /// action list, a grant of all actions is kept as it is.
    pub open spec fn allowing(self, name: Seq<Seq<char>>) -> StatementV {
        StatementV {
            resources: self.resources,
            actions: Some(
                match self.actions {
                    Some(ActionListModel::All) => ActionListModel::All,
                    Some(ActionListModel::List(l)) => ActionListModel::List(l.push(name)),
                    None => ActionListModel::List(seq![name]),
                },
            ),
            configuration: self.configuration,
        }
    }

    /// This statement with the configuration key `k` set to `v`.
    pub open spec fn configured(self, k: Seq<char>, v: ConfigModel) -> StatementV {
        StatementV {
            resources: self.resources,
            actions: self.actions,
            configuration: Some(
                cfg_replace(
                    match self.configuration {
                        Some(entries) => entries,
                        None => Seq::empty(),
                    },
                    k,
                    v,
                ),
            ),
        }
    }
}

/// A statement of permissions: which `actions` may be taken on which
/// `resources`, and which configuration values hold there. A statement only
/// grants; the only way to deny an action is to never grant it.
#[derive(Debug)]
pub struct Statement {
    /// The list of resources this statement applies to.
    pub resources: Vec<ResourceName>,
    /// The actions this statement allows, if any.
    pub actions: Option<ActionNameList>,
    /// Any configured values for these resources.
    pub configuration: Option<Vec<(String, Configuration)>>,
}

impl View for Statement {
    type V = StatementV;

    open spec fn view(&self) -> StatementV {
        StatementV {
            resources: self.resources.deep_view(),
            actions: match self.actions {
                Some(list) => Some(list@),
                None => None,
            },
            configuration: match self.configuration {
                Some(entries) => Some(cfg_entries_view(entries@)),
                None => None,
            },
        }
    }
}

impl Statement {
    /// The key-level model of this statement.
    pub open spec fn model(self) -> StatementModel {
        self@.to_model()
    }

    /// A statement allowing all actions on [`ResourceName::any()`].
    pub fn allow_all_for_any_resource() -> (result: Statement)
        ensures
            result@.resources == seq![seq![IdentifierModel::Any]],
            result@.actions == Some(ActionListModel::All),
            result@.configuration is None,
    {
        let result = Statement::for_any().allowing_all();
        assert(result@.resources =~~= seq![seq![IdentifierModel::Any]]);
        result
    }

    /// An empty statement for the single resource `name`.
    pub fn for_resource<I: Into<ResourceName>>(name: I) -> (result: Statement)
        ensures
            exists|r: ResourceName|
                #[trigger] call_ensures(I::into, (name,), r) && result@ == (StatementV {
                    resources: seq![r@],
                    actions: None,
                    configuration: None,
                }),
    {
        let r = name.into();
        let ghost rg = r;
        let mut v: Vec<ResourceName> = Vec::new();
        v.push(r);
        let result = Statement { resources: v, actions: None, configuration: None };
        assert(result@.resources =~= seq![rg@]);
        result
    }

    /// An empty statement for [`ResourceName::any()`].
    pub fn for_any() -> (result: Statement)
        ensures
            result@.resources == seq![seq![IdentifierModel::Any]],
            result@.actions is None,
            result@.configuration is None,
    {
        let mut v: Vec<ResourceName> = Vec::new();
        v.push(ResourceName::any());
        let result = Statement { resources: v, actions: None, configuration: None };
        assert(result@.resources =~~= seq![seq![IdentifierModel::Any]]);
        result
    }

    /// An empty statement for the resources `names`.
    pub fn for_resources(names: Vec<ResourceName>) -> (result: Statement)
        ensures
            result@.resources == names.deep_view(),
            result@.actions is None,
            result@.configuration is None,
    {
        Statement { resources: names, actions: None, configuration: None }
    }

    /// Allows `action` to be performed: appends its name to this statement's
    /// action list.
    pub fn allow<A: crate::action::Action>(&mut self, action: &A)
        ensures
            final(self)@ == old(self)@.allowing(action.spec_name()),
    {
        let current = self.actions.take();
        match current {
            Some(ActionNameList::All) => {
                self.actions = Some(ActionNameList::All);
            },
            Some(ActionNameList::List(mut names)) => {
                let ghost before = names.deep_view();
                names.push(action.name());
                assert(names.deep_view() =~= before.push(action.spec_name()));
                self.actions = Some(ActionNameList::List(names));
            },
            None => {
                let mut names: Vec<crate::action::ActionName> = Vec::new();
                names.push(action.name());
                assert(names.deep_view() =~= seq![action.spec_name()]);
                self.actions = Some(ActionNameList::List(names));
            },
        }
    }

    /// Allows `action` and returns the statement.
    pub fn allowing<A: crate::action::Action>(self, action: &A) -> (result: Statement)
        ensures
            result@ == self@.allowing(action.spec_name()),
    {
        let mut s = self;
        s.allow(action);
        s
    }

    /// Allows all actions.
    pub fn allow_all(&mut self)
        ensures
            final(self)@ == (StatementV {
                resources: old(self)@.resources,
                actions: Some(ActionListModel::All),
                configuration: old(self)@.configuration,
            }),
    {
        self.actions = Some(ActionNameList::All);
    }

    /// Allows all actions and returns the statement.
    pub fn allowing_all(self) -> (result: Statement)
        ensures
            result@ == (StatementV {
                resources: self@.resources,
                actions: Some(ActionListModel::All),
                configuration: self@.configuration,
            }),
    {
        let mut s = self;
        s.allow_all();
        s
    }

    /// Sets the configuration key `key` to `configuration` for the resources
    /// of this statement, replacing an earlier value of the key.
    pub fn configure<S: Into<String>, C: Into<Configuration>>(&mut self, key: S, configuration: C)
        ensures
            exists|k: String, c: Configuration|
                #[trigger] call_ensures(S::into, (key,), k) && #[trigger] call_ensures(
                    C::into,
                    (configuration,),
                    c,
                ) && final(self)@ == old(self)@.configured(k@, c@),
    {
        let k = key.into();
        let c = configuration.into();
        let ghost kg = k;
        let ghost cg = c;
        let current = self.configuration.take();
        match current {
            Some(mut entries) => {
                cfg_set(&mut entries, k, c);
                self.configuration = Some(entries);
            },
            None => {
                let mut entries: Vec<(String, Configuration)> = Vec::new();
                cfg_set(&mut entries, k, c);
                proof {
                    assert(cfg_entries_view(Seq::<(String, Configuration)>::empty())
                        =~= Seq::<(Seq<char>, ConfigModel)>::empty());
                }
                self.configuration = Some(entries);
            },
        }
        assert(final(self)@ == old(self)@.configured(kg@, cg@));
    }

    /// Sets the configuration key `key` to `configuration` and returns the
    /// statement.
    pub fn with<S: Into<String>, C: Into<Configuration>>(self, key: S, configuration: C) -> (result:
        Statement)
        ensures
            exists|k: String, c: Configuration|
                #[trigger] call_ensures(S::into, (key,), k) && #[trigger] call_ensures(
                    C::into,
                    (configuration,),
                    c,
                ) && result@ == self@.configured(k@, c@),
    {
        let mut s = self;
        s.configure(key, configuration);
        s
    }
}

impl Clone for Statement {
    /// Clones the statement, keeping its contents.
    fn clone(&self) -> (r: Statement)
        ensures
            r@ == self@,
    {
        let mut resources: Vec<ResourceName> = Vec::new();
        let mut i: usize = 0;
        while i < self.resources.len()
            invariant
                0 <= i <= self.resources@.len(),
                resources@.len() == i,
                forall|j: int| 0 <= j < i ==> resources@[j]@ == self.resources@[j]@,
            decreases self.resources@.len() - i,
        {
            resources.push(self.resources[i].clone());
            i += 1;
        }
        assert(resources.deep_view() =~= self.resources.deep_view());
        let actions = match &self.actions {
            Some(list) => Some(list.clone()),
            None => None,
        };
        let configuration = match &self.configuration {
            Some(entries) => {
                let mut v: Vec<(String, Configuration)> = Vec::new();
                let mut j: usize = 0;
                while j < entries.len()
                    invariant
                        0 <= j <= entries@.len(),
                        v@.len() == j,
                        forall|l: int| 0 <= l < j ==> v@[l].0@ == entries@[l].0@ && v@[l].1@
                            == entries@[l].1@,
                    decreases entries@.len() - j,
                {
                    let pair = &entries[j];
                    v.push((pair.0.clone(), pair.1.clone()));
                    j += 1;
                }
                assert(cfg_entries_view(v@) =~= cfg_entries_view(entries@));
                Some(v)
            },
            None => None,
        };
        Statement { resources, actions, configuration }
    }
}

} // verus!
