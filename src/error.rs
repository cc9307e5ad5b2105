use vstd::prelude::*;

verus! {

/// Every way in which an operation on the ledger can be refused.
#[derive(Debug, Clone, Copy, PartialEq, Eq, Structural)]
pub enum ContractError {
    InvalidRewardEndTime {},
    InvalidMaxBondDuration {},
    InvalidBondDuration {},
    Unauthorized {},
    DecreaseAmountExceeds(u128),
    NoClaim {},
    NoMatureClaim {},
    InvalidReleaseTime {},
    NoClaimForTimestamp {},
    NoBond {},
    NoFund {},
    InvalidCw20TokenAddress {},
    NoBondForThisDuration {},
    InvalidRewardPerSecond {},
    InsufficientStakedAmount {},
    InvalidForceClaimRatio {},
    AssetError {},
    InvalidRewardTokenDenom {},
    DivideByZero {},
    OverflowError {},
    ClockRegression {},
}

impl ContractError {
    /// The message that describes the error to a user.
    pub fn message(&self) -> (r: &'static str) {
        match self {
            ContractError::InvalidRewardEndTime {} => "Reward end time cannot be in the past",
            ContractError::InvalidMaxBondDuration {} => "Max bond duration cant be lower than 1 day",
            ContractError::InvalidBondDuration {} => "Invalid bond duration as days",
            ContractError::Unauthorized {} => "Unauthorized",
            ContractError::DecreaseAmountExceeds(_) => "Decrease amount exceeds user balance",
            ContractError::NoClaim {} => "No claim for user",
            ContractError::NoMatureClaim {} => "No mature claim found for user",
            ContractError::InvalidReleaseTime {} => "Release time can not be in the past",
            ContractError::NoClaimForTimestamp {} => "No claim for sent timestamp",
            ContractError::NoBond {} => "No bond",
            ContractError::NoFund {} => "Please send right denom and funds",
            ContractError::InvalidCw20TokenAddress {} => "Invalid cw20 token address",
            ContractError::NoBondForThisDuration {} => "No Bond for duration sent",
            ContractError::InvalidRewardPerSecond {} => "Reward per second must be greater than 0",
            ContractError::InsufficientStakedAmount {} => "Withdraw amount is higher than the bonded amount",
            ContractError::InvalidForceClaimRatio {} => "Force claim ratio must be between 0 and 1",
            ContractError::AssetError {} => "Asset error",
            ContractError::InvalidRewardTokenDenom {} => "Invalid reward token denom",
            ContractError::DivideByZero {} => "Can not divide by zero",
            ContractError::OverflowError {} => "Overflow error",
            ContractError::ClockRegression {} => "Time can not move backwards",
        }
    }
}

} // verus!
