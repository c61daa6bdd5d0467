//! The plan parameters of a scan as the list that a plan tree carries.

use crate::decimal::{decimal, decimal_text, law_decimal_reads_back, number, parse_decimal};
use crate::plan::{oid_of, unsigned_oid, ScoreOrder};
use crate::text::{list_texts, texts};
use vstd::prelude::*;

verus! {

/// Plan parameters of a scan.
#[derive(Debug)]
pub struct Private {
    pub index_oid: u32,
    pub heap_oid: u32,
    pub query: String,
    pub order: Option<ScoreOrder>,
}

/// An element of the list.
#[derive(Debug)]
pub enum Item {
    Integer(i32),
    Text(String),
    /// The `==>` clause itself.
    Clause,
    /// A list of texts; an empty one is no list.
    Texts(Vec<String>),
}

/// What an element holds.
pub enum Held {
    Integer(int),
    Text(Seq<char>),
    Clause,
    Texts(Seq<Seq<char>>),
}

/// What plan parameters hold.
pub struct Parameters {
    pub index_oid: int,
    pub heap_oid: int,
    pub query: Seq<char>,
    pub order: Option<OrderParameters>,
}

/// What an ordering holds.
pub struct OrderParameters {
    pub full: bool,
    pub dense_ratio: Option<u32>,
    pub k1: Option<u32>,
    pub b: Option<u32>,
    pub term_add: Option<Seq<Seq<char>>>,
    pub term_replace: Option<Seq<Seq<char>>>,
    pub top_k: Option<int>,
}

impl View for Item {
    type V = Held;

    open spec fn view(&self) -> Held {
        match *self {
            Item::Integer(value) => Held::Integer(value as int),
            Item::Text(text) => Held::Text(text@),
            Item::Clause => Held::Clause,
            Item::Texts(list) => Held::Texts(texts(list@)),
        }
    }
}

/// What each element holds.
pub open spec fn held(items: Seq<Item>) -> Seq<Held> {
    items.map_values(|item: Item| item@)
}

/// What an ordering holds.
pub open spec fn order_parameters(order: ScoreOrder) -> OrderParameters {
    OrderParameters {
        full: order.full,
        dense_ratio: order.dense_ratio,
        k1: order.k1,
        b: order.b,
        term_add: list_texts(order.term_add),
        term_replace: list_texts(order.term_replace),
        top_k: match order.top_k {
            Some(k) => Some(k as int),
            None => None,
        },
    }
}

impl View for Private {
    type V = Parameters;

    open spec fn view(&self) -> Parameters {
        Parameters {
            index_oid: self.index_oid as int,
            heap_oid: self.heap_oid as int,
            query: self.query@,
            order: match self.order {
                Some(order) => Some(order_parameters(order)),
                None => None,
            },
        }
    }
}

/// A number in the list: its bit pattern in decimal, or an empty text.
pub open spec fn float_text(bits: Option<u32>) -> Seq<char> {
    match bits {
        Some(bits) => decimal(bits as nat),
        None => Seq::empty(),
    }
}

/// An array in the list; one that is not there is empty.
pub open spec fn array_listed(array: Option<Seq<Seq<char>>>) -> Seq<Seq<char>> {
    match array {
        Some(items) => items,
        None => Seq::empty(),
    }
}

/// The list that carries plan parameters.
pub open spec fn listed(parameters: Parameters) -> Seq<Held> {
    let head = seq![
        Held::Integer(parameters.index_oid),
        Held::Integer(parameters.heap_oid),
        Held::Text(parameters.query),
        Held::Clause,
    ];
    match parameters.order {
        None => head + seq![Held::Integer(-1)],
        Some(order) => head + seq![
            Held::Integer(
                if order.full {
                    1int
                } else {
                    0int
                },
            ),
            Held::Text(float_text(order.dense_ratio)),
            Held::Text(float_text(order.k1)),
            Held::Text(float_text(order.b)),
            Held::Texts(array_listed(order.term_add)),
            Held::Texts(array_listed(order.term_replace)),
            Held::Integer(
                match order.top_k {
                    Some(k) => k,
                    None => -1,
                },
            ),
        ],
    }
}

/// A number read from the list.
pub open spec fn float_read(text: Seq<char>) -> Option<u32> {
    if text.len() == 0 {
        None
    } else {
        match number(text) {
            Some(bits) => Some(bits as u32),
            None => None,
        }
    }
}

/// The number is absent or a bit pattern.
pub open spec fn float_readable(text: Seq<char>) -> bool {
    text.len() == 0 || (number(text) matches Some(bits) && bits <= u32::MAX)
}

/// An array read from the list; an empty one is not there.
pub open spec fn array_read(items: Seq<Seq<char>>) -> Option<Seq<Seq<char>>> {
    if items.len() == 0 {
        None
    } else {
        Some(items)
    }
}

/// The list has the elements that plan parameters are read from.
pub open spec fn readable(list: Seq<Held>) -> bool {
    &&& list.len() >= 5
    &&& list[0] is Integer && list[1] is Integer && list[2] is Text && list[3] is Clause
    &&& list[4] is Integer
    &&& list[4] != Held::Integer(-1) ==> {
        &&& list.len() >= 11
        &&& list[5] matches Held::Text(text) && float_readable(text)
        &&& list[6] matches Held::Text(text) && float_readable(text)
        &&& list[7] matches Held::Text(text) && float_readable(text)
        &&& list[8] is Texts
        &&& list[9] is Texts
        &&& list[10] is Integer
    }
}

/// An object identifier from an element, which holds it as a signed number.
pub open spec fn oid_read(held: Held) -> int {
    unsigned_oid(held->Integer_0 as i32)
}

/// The plan parameters that a list carries.
pub open spec fn read_back(list: Seq<Held>) -> Parameters {
    Parameters {
        index_oid: oid_read(list[0]),
        heap_oid: oid_read(list[1]),
        query: list[2]->Text_0,
        order: if list[4] == Held::Integer(-1) {
            None
        } else {
            Some(
                OrderParameters {
                    full: list[4] == Held::Integer(1),
                    dense_ratio: float_read(list[5]->Text_0),
                    k1: float_read(list[6]->Text_0),
                    b: float_read(list[7]->Text_0),
                    term_add: array_read(list[8]->Texts_0),
                    term_replace: array_read(list[9]->Texts_0),
                    top_k: if list[10]->Integer_0 < 0 {
                        None
                    } else {
                        Some(list[10]->Integer_0)
                    },
                },
            )
        },
    }
}

/// The parameters fit the integers of a list.
pub open spec fn fits(parameters: Parameters) -> bool {
    &&& 0 <= parameters.index_oid <= i32::MAX
    &&& 0 <= parameters.heap_oid <= i32::MAX
    &&& parameters.order matches Some(order) ==> (order.top_k matches Some(k) ==> 0 <= k
        <= i32::MAX)
}

/// The arrays that are there hold something.
pub open spec fn arrays_filled(order: OrderParameters) -> bool {
    &&& order.term_add matches Some(items) ==> items.len() > 0
    &&& order.term_replace matches Some(items) ==> items.len() > 0
}

/// Reading the list back gives the plan parameters it was made from. An empty
/// array is read back as none.
pub proof fn law_parameters_survive(parameters: Parameters)
    requires
        fits(parameters),
        parameters.order matches Some(order) ==> arrays_filled(order),
    ensures
        readable(listed(parameters)),
        read_back(listed(parameters)) == parameters,
{
    if let Some(order) = parameters.order {
        lemma_float(order.dense_ratio);
        lemma_float(order.k1);
        lemma_float(order.b);
    }
}

proof fn lemma_float(bits: Option<u32>)
    ensures
        float_readable(float_text(bits)),
        float_read(float_text(bits)) == bits,
{
    if let Some(bits) = bits {
        law_decimal_reads_back(bits as nat);
    }
}

fn float_item(bits: Option<u32>) -> (item: Item)
    ensures
        item@ == Held::Text(float_text(bits)),
{
    match bits {
        Some(bits) => Item::Text(decimal_text(bits as u64)),
        None => Item::Text(String::new()),
    }
}

fn copy_texts(items: &Vec<String>) -> (copy: Vec<String>)
    ensures
        texts(copy@) == texts(items@),
{
    let mut copy: Vec<String> = Vec::new();
    let mut i: usize = 0;
    while i < items.len()
        invariant
            i <= items.len(),
            copy.len() == i,
            forall|j: int| 0 <= j < i ==> copy[j]@ == items[j]@,
        decreases items.len() - i,
    {
        copy.push(items[i].clone());
        i = i + 1;
    }
    proof {
        assert(texts(copy@) =~= texts(items@));
    }
    copy
}

fn array_item(array: &Option<Vec<String>>) -> (item: Item)
    ensures
        item@ == Held::Texts(array_listed(list_texts(*array))),
{
    match array {
        Some(items) => Item::Texts(copy_texts(items)),
        None => {
            let none: Vec<String> = Vec::new();
            proof {
                assert(texts(none@) =~= Seq::empty());
            }
            Item::Texts(none)
        },
    }
}

impl Private {
    /// The list that carries the parameters in a plan.
    pub fn to_list(&self) -> (list: Vec<Item>)
        requires
            fits(self@),
        ensures
            held(list@) == listed(self@),
    {
        let mut list: Vec<Item> = Vec::new();
        list.push(Item::Integer(self.index_oid as i32));
        list.push(Item::Integer(self.heap_oid as i32));
        list.push(Item::Text(self.query.clone()));
        list.push(Item::Clause);
        match &self.order {
            None => {
                list.push(Item::Integer(-1));
            },
            Some(order) => {
                list.push(Item::Integer(if order.full { 1 } else { 0 }));
                list.push(float_item(order.dense_ratio));
                list.push(float_item(order.k1));
                list.push(float_item(order.b));
                list.push(array_item(&order.term_add));
                list.push(array_item(&order.term_replace));
                let top_k: i32 = match order.top_k {
                    Some(k) => k as i32,
                    None => -1,
                };
                list.push(Item::Integer(top_k));
            },
        }
        proof {
            assert(held(list@) =~= listed(self@));
        }
        list
    }

    /// Reads the parameters from the list a plan carries.
    pub fn from_list(list: &Vec<Item>) -> (private: Private)
        requires
            readable(held(list@)),
        ensures
            private@ == read_back(held(list@)),
    {
        let ghost all = held(list@);
        proof {
            assert(all.len() == list.len());
            assert forall|i: int| 0 <= i < list.len() implies all[i] == #[trigger] list[i]@ by {}
        }
        let index_oid: u32 = read_oid(&list[0]);
        let heap_oid: u32 = read_oid(&list[1]);
        let query = read_text(&list[2]);
        let full: i32 = read_integer(&list[4]);
        let order = if full == -1 {
            None
        } else {
            let top_k: i32 = read_integer(&list[10]);
            Some(
                ScoreOrder {
                    full: full == 1,
                    dense_ratio: read_float(&list[5]),
                    k1: read_float(&list[6]),
                    b: read_float(&list[7]),
                    term_add: read_texts(&list[8]),
                    term_replace: read_texts(&list[9]),
                    top_k: if top_k < 0 {
                        None
                    } else {
                        Some(top_k as usize)
                    },
                },
            )
        };
        Private { index_oid, heap_oid, query, order }
    }
}

fn read_integer(item: &Item) -> (value: i32)
    requires
        item@ is Integer,
    ensures
        item@ == Held::Integer(value as int),
{
    match item {
        Item::Integer(value) => *value,
        _ => 0,
    }
}

fn read_oid(item: &Item) -> (oid: u32)
    requires
        item@ is Integer,
    ensures
        oid == oid_read(item@),
{
    oid_of(read_integer(item))
}

fn read_text(item: &Item) -> (text: String)
    requires
        item@ is Text,
    ensures
        item@ == Held::Text(text@),
{
    match item {
        Item::Text(text) => text.clone(),
        _ => String::new(),
    }
}

fn read_texts(item: &Item) -> (array: Option<Vec<String>>)
    requires
        item@ is Texts,
    ensures
        list_texts(array) == array_read(item@->Texts_0),
{
    match item {
        Item::Texts(items) => if items.len() == 0 {
            None
        } else {
            Some(copy_texts(items))
        },
        _ => None,
    }
}

fn read_float(item: &Item) -> (bits: Option<u32>)
    requires
        item@ matches Held::Text(text) && float_readable(text),
    ensures
        bits == float_read(item@->Text_0),
{
    match item {
        Item::Text(text) => match parse_decimal(text.as_str(), 0xffff_ffff) {
            Some(bits) => Some(bits as u32),
            None => None,
        },
        _ => None,
    }
}

} // verus!
