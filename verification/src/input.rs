use vstd::prelude::*;
use vstd::string::*;
use crate::text::{decimal, push_decimal};

verus! {

/// A physical control of the stick, as the mapping knows it.
#[derive(Debug, Clone, Copy, PartialEq, Eq, Structural, PartialOrd, Ord, Hash)]
pub enum PhysicalInput {
    DPadUp,
    DPadDown,
    DPadLeft,
    DPadRight,
    Button(u8),
    AxisNegative(u8),
    AxisPositive(u8),
}

impl PhysicalInput {
    /// The position of the input in the order of the enum: variants in their
    /// declared order, and within a variant by its index.
    pub open spec fn order_key(self) -> int {
        match self {
            PhysicalInput::DPadUp => 0,
            PhysicalInput::DPadDown => 256,
            PhysicalInput::DPadLeft => 512,
            PhysicalInput::DPadRight => 768,
            PhysicalInput::Button(n) => 1024 + n,
            PhysicalInput::AxisNegative(n) => 1280 + n,
            PhysicalInput::AxisPositive(n) => 1536 + n,
        }
    }

    /// Executable form of `order_key`.
    pub fn key(&self) -> (k: u16)
        ensures
            k == self.order_key(),
    {
        match self {
            PhysicalInput::DPadUp => 0,
            PhysicalInput::DPadDown => 256,
            PhysicalInput::DPadLeft => 512,
            PhysicalInput::DPadRight => 768,
            PhysicalInput::Button(n) => 1024 + *n as u16,
            PhysicalInput::AxisNegative(n) => 1280 + *n as u16,
            PhysicalInput::AxisPositive(n) => 1536 + *n as u16,
        }
    }

    /// The text under which the input is shown to the user.
    pub open spec fn display_text(self) -> Seq<char> {
        match self {
            PhysicalInput::DPadUp => "Direção cima"@,
            PhysicalInput::DPadDown => "Direção baixo"@,
            PhysicalInput::DPadLeft => "Direção esquerda"@,
            PhysicalInput::DPadRight => "Direção direita"@,
            PhysicalInput::Button(n) => "Botão "@ + decimal(n as nat),
            PhysicalInput::AxisNegative(n) => "Eixo "@ + decimal(n as nat) + " −"@,
            PhysicalInput::AxisPositive(n) => "Eixo "@ + decimal(n as nat) + " +"@,
        }
    }

    /// The text under which the input is shown to the user.
    pub fn to_string(&self) -> (s: String)
        ensures
            s@ == self.display_text(),
    {
        match self {
            PhysicalInput::DPadUp => String::from_str("Direção cima"),
            PhysicalInput::DPadDown => String::from_str("Direção baixo"),
            PhysicalInput::DPadLeft => String::from_str("Direção esquerda"),
            PhysicalInput::DPadRight => String::from_str("Direção direita"),
            PhysicalInput::Button(n) => {
                let mut s = String::from_str("Botão ");
                push_decimal(&mut s, *n as u64);
                s
            },
            PhysicalInput::AxisNegative(n) => {
                let mut s = String::from_str("Eixo ");
                push_decimal(&mut s, *n as u64);
                s.append(" −");
                s
            },
            PhysicalInput::AxisPositive(n) => {
                let mut s = String::from_str("Eixo ");
                push_decimal(&mut s, *n as u64);
                s.append(" +");
                s
            },
        }
    }

    /// Two inputs with the same key are the same input.
    pub proof fn lemma_key_injective(a: PhysicalInput, b: PhysicalInput)
        ensures
            a.order_key() == b.order_key() <==> a == b,
    {
    }
}

} // verus!
