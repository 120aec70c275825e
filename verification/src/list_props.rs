//! What a listing of a cache asks for: where to start, which keys to keep,
//! in which order, and how many.

use vstd::prelude::*;

verus! {

/// Which keys a listing keeps.
#[derive(Clone, Copy, Debug)]
pub enum Filter {
    StartWith(&'static str),
    EndWith(&'static str),
    StartAndEndWith(&'static str, &'static str),
    /// Every key is kept.
    All,
}

impl Filter {
    /// Whether the filter keeps `key`.
    pub open spec fn keeps(self, key: Seq<char>) -> bool {
        match self {
            Filter::StartWith(prefix) => prefix@.is_prefix_of(key),
            Filter::EndWith(suffix) => suffix@.is_suffix_of(key),
            Filter::StartAndEndWith(prefix, suffix) => prefix@.is_prefix_of(key)
                && suffix@.is_suffix_of(key),
            Filter::All => true,
        }
    }
}

impl Default for Filter {
    fn default() -> (f: Self)
        ensures
            f is All,
    {
        Filter::All
    }
}

/// The direction of a listing.
#[derive(Clone, Copy, Debug)]
pub enum Order {
    Asc,
    Desc,
}

impl Default for Order {
    fn default() -> (o: Self)
        ensures
            o is Asc,
    {
        Order::Asc
    }
}

/// The cursor of a listing: the key after which it starts.
#[derive(Clone, Copy, Debug)]
pub enum StartAfter {
    Key(&'static str),
    /// No cursor: the listing starts with the first key.
    Start,
}

impl Default for StartAfter {
    fn default() -> (s: Self)
        ensures
            s is Start,
    {
        StartAfter::Start
    }
}

/// The parameters of a listing.
#[derive(Clone, Copy, Debug)]
pub struct ListProps {
    pub start_after_key: StartAfter,
    pub filter: Filter,
    pub order: Order,
    pub limit: usize,
}

impl Default for ListProps {
    fn default() -> (p: Self)
        ensures
            p.start_after_key is Start,
            p.filter is All,
            p.order is Asc,
            p.limit == 0,
    {
        ListProps {
            start_after_key: StartAfter::Start,
            filter: Filter::All,
            order: Order::Asc,
            limit: 0,
        }
    }
}

impl ListProps {
    /// A listing of everything from the start, ascending, ten items at most.
    pub fn new() -> (p: Self)
        ensures
            p.start_after_key is Start,
            p.filter is All,
            p.order is Asc,
            p.limit == 10,
    {
        ListProps {
            start_after_key: StartAfter::Start,
            filter: Filter::All,
            order: Order::Asc,
            limit: 10,
        }
    }

    /// Sets the cursor: the listing starts after `key`.
    pub fn start_after_key(self, key: &'static str) -> (p: Self)
        ensures
            p == (ListProps { start_after_key: StartAfter::Key(key), ..self }),
    {
        let mut p = self;
        p.start_after_key = StartAfter::Key(key);
        p
    }

    /// Sets the filter.
    pub fn filter(self, filter: Filter) -> (p: Self)
        ensures
            p == (ListProps { filter, ..self }),
    {
        let mut p = self;
        p.filter = filter;
        p
    }

    /// Sets the direction.
    pub fn order(self, order: Order) -> (p: Self)
        ensures
            p == (ListProps { order, ..self }),
    {
        let mut p = self;
        p.order = order;
        p
    }

    /// Sets the most items the listing returns.
    pub fn limit(self, limit: usize) -> (p: Self)
        ensures
            p == (ListProps { limit, ..self }),
    {
        let mut p = self;
        p.limit = limit;
        p
    }
}

/// What a listing can be asked with: full parameters, or one of them, the
/// others then being those of [`ListProps::new`].
pub trait IntoListProps: Sized {
    /// The parameters this value stands for.
    spec fn list_props(self) -> ListProps;

    /// Turns the value into the parameters it stands for.
    fn into_list_props(self) -> (p: ListProps)
        ensures
            p == self.list_props(),
    ;
}

impl IntoListProps for ListProps {
    open spec fn list_props(self) -> ListProps {
        self
    }

    fn into_list_props(self) -> (p: ListProps) {
        self
    }
}

impl IntoListProps for Filter {
    open spec fn list_props(self) -> ListProps {
        ListProps {
            start_after_key: StartAfter::Start,
            filter: self,
            order: Order::Asc,
            limit: 10,
        }
    }

    fn into_list_props(self) -> (p: ListProps) {
        ListProps {
            start_after_key: StartAfter::Start,
            filter: self,
            order: Order::Asc,
            limit: 10,
        }
    }
}

impl IntoListProps for Order {
    open spec fn list_props(self) -> ListProps {
        ListProps {
            start_after_key: StartAfter::Start,
            filter: Filter::All,
            order: self,
            limit: 10,
        }
    }

    fn into_list_props(self) -> (p: ListProps) {
        ListProps {
            start_after_key: StartAfter::Start,
            filter: Filter::All,
            order: self,
            limit: 10,
        }
    }
}

impl IntoListProps for StartAfter {
    open spec fn list_props(self) -> ListProps {
        ListProps {
            start_after_key: self,
            filter: Filter::All,
            order: Order::Asc,
            limit: 10,
        }
    }

    fn into_list_props(self) -> (p: ListProps) {
        ListProps {
            start_after_key: self,
            filter: Filter::All,
            order: Order::Asc,
            limit: 10,
        }
    }
}

} // verus!
