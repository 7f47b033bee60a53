//! Data structures used in line item calculations.

use vstd::prelude::*;

verus! {

/// Error returned to calling applications: a single kind carrying a
/// human-readable message.
#[derive(Clone, PartialEq, Eq, Debug)]
pub enum TabulationError {
    /// Standard-form error with a string message.
    ErrorString(String),
}

impl TabulationError {
    /// Wrap a message.
    pub fn from_text(text: &str) -> (r: TabulationError)
        ensures
            r->ErrorString_0@ == text@,
    {
        TabulationError::ErrorString(text.to_owned())
    }

    /// The message carried.
    pub fn message(&self) -> (r: &str)
        ensures
            r@ == self->ErrorString_0@,
    {
        match self {
            TabulationError::ErrorString(text) => text.as_str(),
        }
    }
}

/// Line item types. Line items can have different types that explain their
/// purpose: the base price of a deliverable, extras, and various fees.
#[derive(Clone, Copy, PartialEq, Eq, Debug, Hash)]
pub enum LineType {
    /// Base price.
    BasePrice,
    /// Add-on or discount.
    AddOn,
    /// Escrow service fee.
    Shield,
    /// Deprecated contingency bonus amount.
    Bonus,
    /// Amount a commissioner is tipping an artist.
    Tip,
    /// Additional fee levied when running the virtual table.
    TableService,
    /// Taxes.
    Tax,
    /// Merch bought at the virtual table alongside a commission.
    Extra,
    /// Fees for premium subscriptions.
    PremiumSubscription,
    /// Any other uncategorized fee.
    OtherFee,
    /// Fee levied for tracking an order without handling escrow.
    DeliverableTracking,
    /// Fee for processing a transaction with no other specific value-add.
    Processing,
    /// Discrepancy between an externally managed invoice and the expected
    /// amount.
    Reconciliation,
    /// Expected card processor charge for this transaction.
    CardFee,
    /// Expected processor fees for transferring to an international artist.
    CrossBorderTransferFee,
    /// Processor fees for sending a payout to the artist.
    PayoutFee,
    /// Fee assessed for maintaining an active connected account.
    ConnectFee,
    /// Bogus value used for testing.
    Bogus,
}

/// Categories for transactions, used to bundle line items for later
/// annotation.
#[derive(Clone, Copy, PartialEq, Eq, Debug, Hash)]
pub enum Category {
    /// Service fee for escrow payments.
    ShieldFee,
    /// Amount to be held in escrow.
    EscrowHold,
    /// Amount to be released from escrow.
    EscrowRelease,
    /// Amount to be returned to the commissioner from escrow.
    EscrowRefund,
    /// Subscription dues.
    SubscriptionDues,
    /// Refund on subscription dues.
    SubscriptionRefund,
    /// Payout.
    CashWithdrawal,
    /// Fee from a third party service provider.
    ThirdPartyFee,
    /// Extra money earned for subscribing to premium services; no longer
    /// used.
    PremiumBonus,
    /// Catch-all for transfers between accounts.
    InternalTransfer,
    /// Refunds from third party services.
    ThirdPartyRefunds,
    /// Manual corrections.
    Correction,
    /// Fees levied at conventions.
    TableHandling,
    /// Taxes.
    Taxes,
    /// Inventory items sold alongside a commission.
    ExtraItem,
    /// Manual payments to vendors for platform services.
    VendorPayment,
    /// Payout reversals.
    PayoutReversal,
    /// A slight processing fee, below shield level.
    ProcessingFee,
    /// Tips.
    TipSend,
    /// A card charge or cash payment before forking elsewhere.
    Payment,
    /// Money added to the processor account to cover unaccounted fees.
    TopUp,
}

/// Distinct accounts that line items may deposit into.
#[derive(Clone, Copy, PartialEq, Eq, Debug, Hash)]
pub enum Account {
    /// Card account.
    Card,
    /// Payout account on the payout provider.
    PayoutAccount,
    /// Escrow holdings account for a particular user.
    Escrow,
    /// Finalized earnings, available for withdrawal.
    Holdings,
    /// Deprecated premium-bonus reserve.
    Reserve,
    /// Earnings before card and bank transfer fees; deprecated.
    UnprocessedEarnings,
    /// Fees paid out to card processors.
    CardTransactionFees,
    /// Card fees not directly related to a specific transaction.
    CardMiscFees,
    /// Fees from performing bank transfers.
    BankTransferFees,
    /// Other bank-related fees, like onboarding.
    BankMiscFees,
    /// Tax held until an order is finalized.
    MoneyHoleStage,
    /// Where taxes go.
    MoneyHole,
    /// Losses to fraud.
    FraudLoss,
    /// Staging account for an incoming transaction before splitting.
    Fund,
    /// Money in a user's processor account being withdrawn.
    PayoutExtract,
    /// Cash received directly, like at an event.
    CashDeposit,
    /// Mirror of payouts in the payee's currency, source side.
    PayoutMirrorSource,
    /// Mirror of payouts in the payee's currency, destination side.
    PayoutMirrorDestination,
}

/// One financial entry in an invoice-in-progress. The engine never mutates
/// a line item; it only produces a map from line identity to resolved value.
#[derive(PartialEq, Eq, Debug)]
pub struct LineItem {
    /// Identity within one tabulation call. A duplicated id silently
    /// overwrites the earlier entry in the result map.
    pub id: i32,
    /// Fold order: lines sharing a priority form one tier, resolved against
    /// the same starting total.
    pub priority: i16,
    /// The priority floor below which a cascading reduction from this line
    /// may act. Must be at most `priority`.
    pub cascade_under: i16,
    /// The kind of line this is, such as the base price or a fee.
    pub kind: LineType,
    /// A static decimal amount this line contributes.
    pub amount: String,
    /// A human-readable description for the invoice.
    pub description: String,
    /// A previously computed value. When every line of a batch carries one,
    /// tabulation is bypassed and these values are used as they stand.
    pub frozen_value: Option<String>,
    /// A percentage, in percent units: "10" means ten percent.
    pub percentage: String,
    /// Whether the static amount is funded by reducing lower lines rather
    /// than added to the grand total.
    pub cascade_amount: bool,
    /// Whether the percentage-derived value is funded by reducing lower
    /// lines rather than added to the grand total.
    pub cascade_percentage: bool,
    /// Whether the percentage is solved in reverse, so the fee equals the
    /// percentage of the total that already includes the fee.
    pub back_into_percentage: bool,
    /// The category of line item, for later transaction annotation.
    pub category: Category,
    /// Destination user for the line; `None` when it is the platform.
    pub destination_user_id: Option<i64>,
    /// Account type the destination user is credited on.
    pub destination_account: Account,
}

impl Clone for LineItem {
    /// An exact copy of the line.
    fn clone(&self) -> (r: LineItem)
        ensures
            r == *self,
    {
        LineItem {
            id: self.id,
            priority: self.priority,
            cascade_under: self.cascade_under,
            kind: self.kind,
            amount: self.amount.clone(),
            description: self.description.clone(),
            frozen_value: match &self.frozen_value {
                Some(s) => Some(s.clone()),
                None => None,
            },
            percentage: self.percentage.clone(),
            cascade_amount: self.cascade_amount,
            cascade_percentage: self.cascade_percentage,
            back_into_percentage: self.back_into_percentage,
            category: self.category,
            destination_user_id: self.destination_user_id,
            destination_account: self.destination_account,
        }
    }
}

impl Default for LineItem {
    /// A zero add-on line: every knob off, every value zero.
    fn default() -> (r: LineItem)
        ensures
            r.id == 0 && r.priority == 0 && r.cascade_under == 0,
            r.kind == LineType::AddOn && r.category == Category::Correction,
            r.amount@ == "0"@ && r.percentage@ == "0"@ && r.description@ == ""@,
            r.frozen_value is None && r.destination_user_id is None,
            r.destination_account == Account::Fund,
            !r.cascade_amount && !r.cascade_percentage && !r.back_into_percentage,
    {
        LineItem {
            id: 0,
            priority: 0,
            cascade_under: 0,
            kind: LineType::AddOn,
            amount: "0".to_owned(),
            description: "".to_owned(),
            frozen_value: None,
            percentage: "0".to_owned(),
            cascade_amount: false,
            cascade_percentage: false,
            back_into_percentage: false,
            category: Category::Correction,
            destination_user_id: None,
            destination_account: Account::Fund,
        }
    }
}

/// A product: a listing in the marketplace.
#[derive(Clone, PartialEq, Eq, Debug)]
pub struct Product {
    /// The ID of the product.
    pub id: u32,
    /// The name of the product.
    pub name: String,
    /// The base price of the product.
    pub base_price: String,
    /// Whether the product is intended for the virtual table.
    pub table_product: bool,
    /// Whether the product can be upgraded for escrow.
    pub escrow_upgradable: bool,
    /// Whether the product is on escrow by default.
    pub escrow_enabled: bool,
}

/// A service plan: the pricing structure for an individual user.
#[derive(Clone, PartialEq, Eq, Debug)]
pub struct ServicePlan {
    /// The ID of the service plan.
    pub id: i32,
    /// The name of the service plan.
    pub name: String,
    /// Whether the connection fee is waived.
    pub connection_fee_waived: bool,
    /// The price per tracked deliverable, when escrow is disabled.
    pub per_deliverable_price: String,
    /// How many orders can be simultaneously tracked.
    pub max_simultaneous_orders: u16,
    /// Whether waitlisting is permitted.
    pub waitlisting: bool,
    /// Whether the plan permits third-party invoicing.
    pub paypal_invoicing: bool,
    /// The static portion of the shield price.
    pub shield_static_price: String,
    /// The percentage portion of the shield price.
    pub shield_percentage_price: String,
}

/// Pricing context information for the line item assemblers.
#[derive(Clone, PartialEq, Eq, Debug)]
pub struct Pricing {
    /// The available plans in the system.
    pub plans: Vec<ServicePlan>,
    /// The minimum price of any deliverable with escrow.
    pub minimum_price: String,
    /// The service fee percentage for table transactions.
    pub table_percentage: String,
    /// The service fee static amount for table transactions.
    pub table_static: String,
    /// The tax rate for table transactions.
    pub table_tax: String,
    /// The percentage on minimally managed processing, like tips.
    pub processing_percentage: String,
    /// The static amount on minimally managed processing.
    pub processing_static: String,
    /// The percentage for converting to the artist's native currency.
    pub international_conversion_percentage: String,
    /// The preferred service plan's name.
    pub preferred_plan: String,
    /// The blended percentage rate the card processor collects.
    pub stripe_blended_rate_percentage: String,
    /// The static part of the processor's charge fee.
    pub stripe_blended_rate_static: String,
    /// The processor's extra percentage on international transfers.
    pub stripe_payout_cross_border_percentage: String,
    /// The processor's monthly fee per active account.
    pub stripe_active_account_monthly_fee: String,
    /// The static amount levied on payouts.
    pub stripe_payout_static: String,
    /// The percentage levied on payouts.
    pub stripe_payout_percentage: String,
}

/// Arguments for assembling the line items of a deliverable.
#[derive(Clone, PartialEq, Eq, Debug)]
pub struct DeliverableLinesContext {
    /// The default base price, used when no base price line is supplied.
    pub base_price: String,
    /// Whether the associated product is a table product.
    pub table_product: bool,
    /// Whether escrow is enabled for this deliverable.
    pub escrow_enabled: bool,
    /// Whether international interchange fees will be due.
    pub international: bool,
    /// Lines to add to the result as they stand.
    pub extra_lines: Vec<LineItem>,
    /// The name of the plan to derive fee structures from.
    pub plan_name: Option<String>,
    /// Pricing variables and context, including available plans.
    pub pricing: Option<Pricing>,
    /// The ID of the user issuing the invoice.
    pub user_id: i64,
    /// Whether lookup failures yield an empty line list instead of an error.
    pub allow_soft_failure: bool,
    /// The after-decimal precision desired in calculations.
    pub quantization: u32,
}

/// Arguments for assembling the line items of an invoice.
#[derive(Clone, PartialEq, Eq, Debug)]
pub struct InvoiceLinesContext {
    /// The name of the plan to derive fee structures from.
    pub plan_name: Option<String>,
    /// Pricing variables and context, including available plans.
    pub pricing: Option<Pricing>,
    /// Base price for the deliverable.
    pub value: String,
    /// Whether international interchange fees will be due.
    pub international: bool,
    /// Whether escrow is enabled for this deliverable.
    pub escrow_enabled: bool,
    /// The product this invoice is based on, if any.
    pub product: Option<Product>,
    /// The ID of the user issuing the invoice.
    pub user_id: i64,
    /// Whether lookup failures yield an empty line list instead of an error.
    pub allow_soft_failure: bool,
    /// The after-decimal precision desired in calculations.
    pub quantization: u32,
}

/// Arguments for assembling the line items of a tip.
#[derive(Clone, PartialEq, Eq, Debug)]
pub struct TipLinesContext {
    /// Pricing variables and context, including available plans.
    pub pricing: Option<Pricing>,
    /// Whether international interchange fees will be due.
    pub international: bool,
    /// The after-decimal precision desired in calculations.
    pub quantization: u32,
}

/// The transport form of a tabulation result: every monetary value crosses
/// this boundary as a base-10 decimal string.
#[derive(Clone, PartialEq, Eq, Debug)]
pub struct Calculation {
    /// Total value of the reckoned line items.
    pub total: String,
    /// Total value of all applied discounts.
    pub discount: String,
    /// Line item ids paired with the decimal string each resolves to.
    pub subtotals: Vec<(i32, String)>,
}

} // verus!
