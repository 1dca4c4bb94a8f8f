//! Order commands and the validation gate that admits them.
//!
//! A command is immutable once built; `build_create_order` and
//! `build_cancel_order` are the single admission gate, so every command that
//! reaches the codec or the log satisfies [`command_valid`].

use vstd::prelude::*;

verus! {

/// Which side of a binary market an order is placed on.
#[derive(Clone, Copy, PartialEq, Eq, Structural, Debug)]
pub enum OptionType {
    Yes,
    No,
}

/// Whether the order buys or sells.
#[derive(Clone, Copy, PartialEq, Eq, Structural, Debug)]
pub enum OrderType {
    Buy,
    Sell,
}

/// A validated intent: create an order or cancel one.
///
/// `price` is a fixed-point amount in hundredths of the quote unit, so the
/// admission rule "price strictly positive" is `price > 0`.
#[derive(Clone, Debug, PartialEq)]
pub enum MessageFromApi {
    CreateOrder {
        user_id: String,
        market_id: String,
        option: OptionType,
        order_type: OrderType,
        price: u64,
        quantity: u32,
    },
    CancelOrder {
        user_id: String,
        order_id: String,
    },
}

/// Rejection reasons of the admission gate.
#[derive(Clone, Copy, PartialEq, Eq, Structural, Debug)]
pub enum ValidationError {
    /// An identifier is empty, the price is not positive, or the quantity is zero.
    InvalidParameters,
    /// The option string is not one of the closed set.
    InvalidOption,
    /// The order-type string is not one of the closed set.
    InvalidOrderType,
}

/// The mathematical value of a command: its string fields as character
/// sequences. Contracts speak of this view, never of `String` values.
pub enum CmdView {
    CreateOrder {
        user_id: Seq<char>,
        market_id: Seq<char>,
        option: OptionType,
        order_type: OrderType,
        price: u64,
        quantity: u32,
    },
    CancelOrder {
        user_id: Seq<char>,
        order_id: Seq<char>,
    },
}

impl View for MessageFromApi {
    type V = CmdView;

    open spec fn view(&self) -> CmdView {
        match *self {
            MessageFromApi::CreateOrder { user_id, market_id, option, order_type, price, quantity } => {
                (CmdView::CreateOrder {
                    user_id: user_id@,
                    market_id: market_id@,
                    option,
                    order_type,
                    price,
                    quantity,
                })
            },
            MessageFromApi::CancelOrder { user_id, order_id } => {
                (CmdView::CancelOrder { user_id: user_id@, order_id: order_id@ })
            },
        }
    }
}

/// The invariant every admitted command satisfies.
pub open spec fn command_valid(m: CmdView) -> bool {
    match m {
        CmdView::CreateOrder { user_id, market_id, option, order_type, price, quantity } => {
            user_id.len() > 0 && market_id.len() > 0 && price > 0 && quantity > 0
        },
        CmdView::CancelOrder { user_id, order_id } => {
            user_id.len() > 0 && order_id.len() > 0
        },
    }
}

/// The fields of a create request that pass the first (shape) check.
pub open spec fn create_shape_ok(
    user_id: Seq<char>,
    market_id: Seq<char>,
    option: Seq<char>,
    order_type: Seq<char>,
    price: u64,
    quantity: u32,
) -> bool {
    user_id.len() > 0 && market_id.len() > 0 && option.len() > 0 && order_type.len() > 0
        && price > 0 && quantity > 0
}

/// Which member of the closed option set a string names, if any.
pub open spec fn parse_option(s: Seq<char>) -> Option<OptionType> {
    if s == "Yes"@ {
        Some(OptionType::Yes)
    } else if s == "No"@ {
        Some(OptionType::No)
    } else {
        None
    }
}

/// Which member of the closed order-type set a string names, if any.
pub open spec fn parse_order_type(s: Seq<char>) -> Option<OrderType> {
    if s == "Buy"@ {
        Some(OrderType::Buy)
    } else if s == "Sell"@ {
        Some(OrderType::Sell)
    } else {
        None
    }
}

/// Character-by-character string comparison, so that contracts can speak of
/// view equality without trusting a derived `PartialEq`.
pub fn str_eq(s: &str, t: &str) -> (r: bool)
    ensures
        r == (s@ == t@),
{
    let n = s.unicode_len();
    if n != t.unicode_len() {
        proof {
            assert(s@ != t@) by {
                assert(s@.len() != t@.len());
            }
        }
        return false;
    }
    let mut i: usize = 0;
    while i < n
        invariant
            i <= n,
            n == s@.len(),
            n == t@.len(),
            forall|j: int| 0 <= j < i ==> s@[j] == t@[j],
        decreases n - i,
    {
        if s.get_char(i) != t.get_char(i) {
            return false;
        }
        i = i + 1;
    }
    proof {
        assert(s@ =~= t@);
    }
    true
}

/// Admission gate for order creation.
///
/// Mirrors the inbound request shape: the option and order type arrive as
/// strings drawn from closed sets. The checks run in a fixed order — shape
/// first, then the option set, then the order-type set — so each error names
/// the first rule the request broke. Rejection is pure: no command exists on
/// the `Err` path, so nothing invalid can reach the codec or the log.
pub fn build_create_order(
    user_id: String,
    market_id: String,
    option: String,
    order_type: String,
    price: u64,
    quantity: u32,
) -> (r: Result<MessageFromApi, ValidationError>)
    ensures
        match r {
            Ok(m) => {
                &&& create_shape_ok(user_id@, market_id@, option@, order_type@, price, quantity)
                &&& parse_option(option@) is Some
                &&& parse_order_type(order_type@) is Some
                &&& m@ == (CmdView::CreateOrder {
                    user_id: user_id@,
                    market_id: market_id@,
                    option: parse_option(option@).unwrap(),
                    order_type: parse_order_type(order_type@).unwrap(),
                    price,
                    quantity,
                })
                &&& command_valid(m@)
            },
            Err(e) => match e {
                ValidationError::InvalidParameters => {
                    !create_shape_ok(user_id@, market_id@, option@, order_type@, price, quantity)
                },
                ValidationError::InvalidOption => {
                    &&& create_shape_ok(user_id@, market_id@, option@, order_type@, price, quantity)
                    &&& parse_option(option@) is None
                },
                ValidationError::InvalidOrderType => {
                    &&& create_shape_ok(user_id@, market_id@, option@, order_type@, price, quantity)
                    &&& parse_option(option@) is Some
                    &&& parse_order_type(order_type@) is None
                },
            },
        },
{
    if user_id.as_str().unicode_len() == 0 || market_id.as_str().unicode_len() == 0
        || option.as_str().unicode_len() == 0 || order_type.as_str().unicode_len() == 0
        || price == 0 || quantity == 0 {
        return Err(ValidationError::InvalidParameters);
    }
    let opt = if str_eq(option.as_str(), "Yes") {
        OptionType::Yes
    } else if str_eq(option.as_str(), "No") {
        OptionType::No
    } else {
        return Err(ValidationError::InvalidOption);
    };
    let side = if str_eq(order_type.as_str(), "Buy") {
        OrderType::Buy
    } else if str_eq(order_type.as_str(), "Sell") {
        OrderType::Sell
    } else {
        return Err(ValidationError::InvalidOrderType);
    };
    Ok(MessageFromApi::CreateOrder {
        user_id,
        market_id,
        option: opt,
        order_type: side,
        price,
        quantity,
    })
}

/// Admission gate for order cancellation: both identifiers must be non-empty.
pub fn build_cancel_order(user_id: String, order_id: String) -> (r: Result<
    MessageFromApi,
    ValidationError,
>)
    ensures
        match r {
            Ok(m) => {
                &&& user_id@.len() > 0
                &&& order_id@.len() > 0
                &&& m@ == (CmdView::CancelOrder { user_id: user_id@, order_id: order_id@ })
                &&& command_valid(m@)
            },
            Err(e) => e == ValidationError::InvalidParameters && (user_id@.len() == 0
                || order_id@.len() == 0),
        },
{
    if user_id.as_str().unicode_len() == 0 || order_id.as_str().unicode_len() == 0 {
        return Err(ValidationError::InvalidParameters);
    }
    Ok(MessageFromApi::CancelOrder { user_id, order_id })
}

} // verus!
