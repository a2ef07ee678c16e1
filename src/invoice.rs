//! The invoice data model and its total.

use vstd::prelude::*;
use crate::date::Date;
use crate::decimal::{Decimal, add_result, mul_result, product_defined, product_units, representable};

verus! {

broadcast use vstd::seq_lib::group_to_multiset_ensures;

/// A party of the invoice: buyer or seller.
#[derive(Clone, Debug)]
pub struct Subject {
    pub name: String,
    pub street: String,
    pub region: String,
    pub nip: String,
}

/// When and where the payment goes.
#[derive(Clone, Debug)]
pub struct Payment {
    pub date: Date,
    pub account: String,
    pub bank: String,
}

/// The invoice's identifier, issue date and place of issue.
#[derive(Clone, Debug)]
pub struct InvoiceInfo {
    pub id: String,
    pub created: Date,
    pub done: String,
}

/// One line item.
#[derive(Clone, Debug)]
pub struct Product {
    pub name: String,
    pub unit: String,
    pub quantity: Decimal,
    pub price: Decimal,
    pub pkd: String,
}

#[derive(Clone, Debug)]
pub struct Invoice {
    pub invoice: InvoiceInfo,
    pub buyer: Subject,
    pub seller: Subject,
    pub payment: Payment,
    pub products: Vec<Product>,
}

/// What the invoice template is rendered from: the invoice and its total.
#[derive(Clone, Debug)]
pub struct TemplateData {
    pub invoice: Invoice,
    pub sum: Decimal,
}

impl Product {
    pub open spec fn wf(&self) -> bool {
        self.quantity.wf() && self.price.wf()
    }
}

pub open spec fn products_wf(ps: Seq<Product>) -> bool {
    forall|i: int| 0 <= i < ps.len() ==> (#[trigger] ps[i]).wf()
}

impl Invoice {
    pub open spec fn wf(&self) -> bool {
        self.invoice.created.wf() && self.payment.date.wf() && products_wf(self.products@)
    }

    /// The sum of `price × quantity` over the line items, added up in order.
    /// `None` exactly where a line's product or a partial total, from the first
    /// line on, is held by no `Decimal`.
    pub fn sum(&self) -> (r: Option<Decimal>)
        requires
            products_wf(self.products@),
        ensures
            r == running_sum(self.products@),
            r is Some <==> sum_defined(self.products@),
            r matches Some(d) ==> d.wf() && d.units() == total_units(self.products@),
    {
        let mut acc = Decimal::zero();
        let mut i: usize = 0;
        proof {
            assert(self.products@.subrange(0, 0) =~= Seq::<Product>::empty());
            let p = crate::text::pow10(56);
            assert(acc.mantissa * p == 0) by (nonlinear_arith)
                requires
                    acc.mantissa == 0,
            ;
        }
        while i < self.products.len()
            invariant
                i <= self.products.len(),
                products_wf(self.products@),
                acc.wf(),
                acc.units() == total_units(self.products@.subrange(0, i as int)),
                sum_defined(self.products@.subrange(0, i as int)),
                running_sum(self.products@.subrange(0, i as int)) == Some(acc),
            decreases self.products.len() - i,
        {
            let p = &self.products[i];
            let ghost next = self.products@.subrange(0, i + 1);
            proof {
                assert(next.drop_last() =~= self.products@.subrange(0, i as int));
                assert(next.last() == *p);
                assert(p.wf());
            }
            let line = match p.price.checked_mul(&p.quantity) {
                Some(line) => line,
                None => {
                    proof {
                        lemma_sum_undefined_stays(self.products@, (i + 1) as int);
                        lemma_running_sum_stuck(self.products@, (i + 1) as int);
                    }
                    return None;
                },
            };
            acc = match acc.checked_add(&line) {
                Some(next) => next,
                None => {
                    proof {
                        lemma_sum_undefined_stays(self.products@, (i + 1) as int);
                        lemma_running_sum_stuck(self.products@, (i + 1) as int);
                    }
                    return None;
                },
            };
            i = i + 1;
        }
        proof {
            assert(self.products@.subrange(0, i as int) =~= self.products@);
        }
        Some(acc)
    }
}

/// The exact value of one line, `price × quantity`, in units of `10^-56`.
pub open spec fn line_units(p: Product) -> int {
    product_units(p.price, p.quantity)
}

/// The exact sum of all lines, in units of `10^-56`.
pub open spec fn total_units(ps: Seq<Product>) -> int
    decreases ps.len(),
{
    if ps.len() == 0 {
        0
    } else {
        total_units(ps.drop_last()) + line_units(ps.last())
    }
}

/// Every line's product is computed, and every partial total, from the
/// first line on, is held by some `Decimal`.
pub open spec fn sum_defined(ps: Seq<Product>) -> bool
    decreases ps.len(),
{
    if ps.len() == 0 {
        true
    } else {
        sum_defined(ps.drop_last()) && product_defined(ps.last().price, ps.last().quantity)
            && representable(total_units(ps))
    }
}

/// The total as `sum` computes it: from zero, each line's `mul_result` added
/// with `add_result` in order, scale included.
pub open spec fn running_sum(ps: Seq<Product>) -> Option<Decimal>
    decreases ps.len(),
{
    if ps.len() == 0 {
        Some(Decimal { mantissa: 0, scale: 0 })
    } else {
        match running_sum(ps.drop_last()) {
            Some(acc) => match mul_result(ps.last().price, ps.last().quantity) {
                Some(line) => add_result(acc, line),
                None => None,
            },
            None => None,
        }
    }
}

proof fn lemma_running_sum_stuck(ps: Seq<Product>, n: int)
    requires
        0 < n <= ps.len(),
        running_sum(ps.subrange(0, n)) is None,
    ensures
        running_sum(ps) is None,
    decreases ps.len() - n,
{
    if n < ps.len() {
        assert(ps.subrange(0, n + 1).drop_last() =~= ps.subrange(0, n));
        lemma_running_sum_stuck(ps, n + 1);
    } else {
        assert(ps.subrange(0, n) =~= ps);
    }
}

proof fn lemma_sum_undefined_stays(ps: Seq<Product>, n: int)
    requires
        0 < n <= ps.len(),
        !sum_defined(ps.subrange(0, n)),
    ensures
        !sum_defined(ps),
    decreases ps.len() - n,
{
    if n < ps.len() {
        assert(ps.subrange(0, n + 1).drop_last() =~= ps.subrange(0, n));
        lemma_sum_undefined_stays(ps, n + 1);
    } else {
        assert(ps.subrange(0, n) =~= ps);
    }
}

proof fn lemma_total_remove(ps: Seq<Product>, i: int)
    requires
        0 <= i < ps.len(),
    ensures
        total_units(ps) == total_units(ps.remove(i)) + line_units(ps[i]),
    decreases ps.len(),
{
    if i == ps.len() - 1 {
        assert(ps.remove(i) =~= ps.drop_last());
    } else {
        let init = ps.drop_last();
        lemma_total_remove(init, i);
        assert(ps.remove(i).drop_last() =~= init.remove(i));
        assert(ps.remove(i).last() == ps.last());
    }
}

/// The exact total does not depend on the order of the line items: any
/// reordering of them has the same exact sum.
pub proof fn lemma_total_order_invariant(a: Seq<Product>, b: Seq<Product>)
    requires
        a.to_multiset() == b.to_multiset(),
    ensures
        total_units(a) == total_units(b),
    decreases a.len(),
{
    if a.len() == 0 {
        assert(b.to_multiset().len() == 0);
        assert(b.len() == 0);
    } else {
        let x = a.last();
        let init = a.drop_last();
        assert(init.push(x) =~= a);
        assert(a.to_multiset() == init.to_multiset().insert(x));
        assert(a.contains(x)) by {
            assert(a[a.len() - 1] == x);
        }
        assert(b.to_multiset().count(x) > 0);
        assert(b.contains(x));
        let i = choose|i: int| 0 <= i < b.len() && b[i] == x;
        assert(b.remove(i).to_multiset() == b.to_multiset().remove(x));
        assert(init.to_multiset().insert(x).remove(x) =~= init.to_multiset());
        lemma_total_order_invariant(init, b.remove(i));
        lemma_total_remove(b, i);
    }
}

/// Where the total of one ordering of the line items is defined, any other
/// ordering has the same exact total, and some `Decimal` holds it.
pub proof fn lemma_sum_order_invariant(a: Seq<Product>, b: Seq<Product>)
    requires
        a.to_multiset() == b.to_multiset(),
    ensures
        total_units(a) == total_units(b),
        sum_defined(a) ==> representable(total_units(b)),
{
    lemma_total_order_invariant(a, b);
    if a.len() == 0 {
        assert(crate::decimal::units_at(0, 0) == 0) by {
            let p = crate::text::pow10(56);
            assert(0 * p == 0) by (nonlinear_arith);
        }
        assert(representable(crate::decimal::units_at(0, 0)));
    }
}

/// The total of two lists of line items, one after the other, is the sum of
/// their totals.
pub proof fn lemma_total_concat(a: Seq<Product>, b: Seq<Product>)
    ensures
        total_units(a + b) == total_units(a) + total_units(b),
    decreases b.len(),
{
    if b.len() == 0 {
        assert(a + b =~= a);
    } else {
        lemma_total_concat(a, b.drop_last());
        assert((a + b).drop_last() =~= a + b.drop_last());
        assert((a + b).last() == b.last());
    }
}

/// Adding a line with a non-negative price and quantity never lowers the total.
pub proof fn lemma_total_grows(a: Seq<Product>, p: Product)
    requires
        p.price.mantissa >= 0,
        p.quantity.mantissa >= 0,
    ensures
        total_units(a.push(p)) >= total_units(a),
{
    assert(a.push(p).drop_last() =~= a);
    let q = crate::text::pow10((56 - p.price.scale - p.quantity.scale) as nat);
    let x = p.price.mantissa as int;
    let y = p.quantity.mantissa as int;
    assert(x * y * q >= 0) by (nonlinear_arith)
        requires
            x >= 0,
            y >= 0,
            q >= 0,
    ;
}

/// Everything the template needs: the invoice and its total.
pub fn template_data(invoice: Invoice) -> (r: Option<TemplateData>)
    requires
        products_wf(invoice.products@),
    ensures
        r is Some <==> sum_defined(invoice.products@),
        r matches Some(t) ==> Some(t.sum) == running_sum(invoice.products@),
        r matches Some(t) ==> t.invoice == invoice && t.sum.wf() && t.sum.units() == total_units(
            invoice.products@,
        ),
{
    match invoice.sum() {
        Some(sum) => Some(TemplateData { invoice, sum }),
        None => None,
    }
}

} // verus!
