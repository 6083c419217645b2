use vstd::prelude::*;

verus! {

/// The name of a cause-effect structure.
#[derive(Debug)]
pub struct CesName {
    pub(crate) name: String,
}

impl View for CesName {
    type V = Seq<char>;

    closed spec fn view(&self) -> Seq<char> {
        self.name@
    }
}

impl DeepView for CesName {
    type V = Seq<char>;

    open spec fn deep_view(&self) -> Seq<char> {
        self@
    }
}

impl CesName {
    pub fn from_string(name: String) -> (r: CesName)
        ensures
            r@ == name@,
    {
        CesName { name }
    }

    pub fn as_str(&self) -> (r: &str)
        ensures
            r@ == self@,
    {
        self.name.as_str()
    }
}

impl Clone for CesName {
    fn clone(&self) -> (r: Self)
        ensures
            r@ == self@,
    {
        CesName { name: self.name.clone() }
    }
}

impl PartialEq for CesName {
    fn eq(&self, other: &Self) -> (r: bool) {
        self.name.eq(&other.name)
    }
}

impl vstd::std_specs::cmp::PartialEqSpecImpl for CesName {
    open spec fn obeys_eq_spec() -> bool {
        true
    }

    open spec fn eq_spec(&self, other: &CesName) -> bool {
        self@ == other@
    }
}

/// Conversion of plain strings into structure names.
pub trait ToCesName {
    fn to_ces_name(&self) -> (r: CesName)
        ensures
            r@ == self.to_ces_name_spec(),
    ;

    spec fn to_ces_name_spec(&self) -> Seq<char>;
}

impl ToCesName for str {
    fn to_ces_name(&self) -> (r: CesName) {
        CesName { name: self.to_owned() }
    }

    open spec fn to_ces_name_spec(&self) -> Seq<char> {
        self@
    }
}

impl ToCesName for String {
    fn to_ces_name(&self) -> (r: CesName) {
        CesName { name: self.clone() }
    }

    open spec fn to_ces_name_spec(&self) -> Seq<char> {
        self@
    }
}

/// View of an instance invocation: its name and arguments.
#[verifier::ext_equal]
pub struct InstanceView {
    pub name: Seq<char>,
    pub args: Seq<Seq<char>>,
}

/// An instance invocation of a named cause-effect structure.
#[derive(Debug)]
pub struct CesInstance {
    pub(crate) name: CesName,
    pub(crate) args: Vec<String>,
}

impl View for CesInstance {
    type V = InstanceView;

    closed spec fn view(&self) -> InstanceView {
        InstanceView { name: self.name@, args: self.args.deep_view() }
    }
}

impl DeepView for CesInstance {
    type V = InstanceView;

    open spec fn deep_view(&self) -> InstanceView {
        self@
    }
}

impl CesInstance {
    pub fn new(name: CesName) -> (r: CesInstance)
        ensures
            r@.name == name@,
            r@.args == Seq::<Seq<char>>::empty(),
    {
        let r = CesInstance { name, args: Vec::new() };
        proof {
            assert(r@.args =~~= Seq::<Seq<char>>::empty());
        }
        r
    }

    /// Appends `args` to the instance's argument list.
    pub fn with_args(self, args: Vec<String>) -> (r: CesInstance)
        ensures
            r@.name == self@.name,
            r@.args == self@.args + args.deep_view(),
    {
        let CesInstance { name, args: mut my_args } = self;
        let rest = args;
        let ghost old_mine = my_args.deep_view();
        let ghost given = rest.deep_view();
        let ghost n0 = my_args@.len();
        let ghost mine0 = my_args@;
        let mut i: usize = 0;
        while i < rest.len()
            invariant
                0 <= i <= rest.len(),
                rest.deep_view() == given,
                my_args@.len() == mine0.len() + i,
                forall|k: int| 0 <= k < mine0.len() ==> my_args@[k] == mine0[k],
                forall|k: int| 0 <= k < i ==> my_args@[mine0.len() + k] == rest@[k],
            decreases rest.len() - i,
        {
            my_args.push(rest[i].clone());
            i += 1;
        }
        proof {
            assert(my_args@ =~= mine0 + rest@);
        }
        let r = CesInstance { name, args: my_args };
        proof {
            assert(r@.args =~~= old_mine + given);
        }
        r
    }

    pub fn get_name(&self) -> (r: &str)
        ensures
            r@ == self@.name,
    {
        self.name.as_str()
    }
}

impl Clone for CesInstance {
    fn clone(&self) -> (r: Self)
        ensures
            r@.name == self@.name,
            r@.args == self@.args,
    {
        let mut args: Vec<String> = Vec::new();
        let mut i: usize = 0;
        while i < self.args.len()
            invariant
                0 <= i <= self.args.len(),
                args@.len() == i,
                forall|k: int| 0 <= k < i ==> args@[k] == self.args@[k],
            decreases self.args.len() - i,
        {
            args.push(self.args[i].clone());
            i += 1;
        }
        proof {
            assert(args@ =~= self.args@);
        }
        let r = CesInstance { name: self.name.clone(), args };
        proof {
            assert(r@.args =~~= self@.args);
        }
        r
    }
}

impl PartialEq for CesInstance {
    fn eq(&self, other: &Self) -> (r: bool) {
        if !self.name.eq(&other.name) {
            return false;
        }
        if self.args.len() != other.args.len() {
            assert(self@.args.len() != other@.args.len());
            return false;
        }
        let mut i: usize = 0;
        while i < self.args.len()
            invariant
                0 <= i <= self.args.len(),
                self.args.len() == other.args.len(),
                self@.name == other@.name,
                forall|k: int| 0 <= k < i ==> self@.args[k] == other@.args[k],
            decreases self.args.len() - i,
        {
            if !self.args[i].eq(&other.args[i]) {
                assert(self@.args[i as int] != other@.args[i as int]);
                return false;
            }
            i += 1;
        }
        proof {
            assert(self@.args =~~= other@.args);
        }
        true
    }
}

impl vstd::std_specs::cmp::PartialEqSpecImpl for CesInstance {
    open spec fn obeys_eq_spec() -> bool {
        true
    }

    open spec fn eq_spec(&self, other: &CesInstance) -> bool {
        self@.name == other@.name && self@.args == other@.args
    }
}

/// View of an immediate definition.
#[verifier::ext_equal]
pub struct ImmediateDefView {
    pub name: Seq<char>,
    pub rex: Seq<crate::rex::KindView>,
}

/// An immediate definition: a name bound to a rule expression.
#[derive(Debug)]
pub struct ImmediateDef {
    pub(crate) name: CesName,
    pub(crate) rex: crate::rex::Rex,
}

impl View for ImmediateDef {
    type V = ImmediateDefView;

    closed spec fn view(&self) -> ImmediateDefView {
        ImmediateDefView { name: self.name@, rex: self.rex@ }
    }
}

impl ImmediateDef {
    pub fn new(name: CesName, rex: crate::rex::Rex) -> (r: ImmediateDef)
        ensures
            r@.name == name@,
            r@.rex == rex@,
    {
        ImmediateDef { name, rex }
    }

    pub fn get_name(&self) -> (r: &str)
        ensures
            r@ == self@.name,
    {
        self.name.as_str()
    }

    pub fn get_rex(&self) -> (r: &crate::rex::Rex)
        ensures
            r@ == self@.rex,
    {
        &self.rex
    }
}

} // verus!
